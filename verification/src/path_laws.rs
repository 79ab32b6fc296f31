//! What is left of a path beneath a prefix, byte by byte.

use vstd::prelude::*;

use crate::source_path::{
    after_separators, beneath, components_of, joined, lemma_after_separators, lemma_name_end,
    name_end, names_from, transformed, ComponentView, TransformView,
};
use crate::text::SLASH;

verus! {

/// A path from `at` on, with each run of separators made one.
pub open spec fn squeezed(path: Seq<u8>, at: int) -> Seq<u8>
    decreases path.len() - at,
{
    if at < 0 || at >= path.len() {
        Seq::empty()
    } else if path[at] == SLASH && at + 1 < path.len() && path[at + 1] == SLASH {
        squeezed(path, at + 1)
    } else {
        seq![path[at]] + squeezed(path, at + 1)
    }
}

/// A path with each run of separators made one, and without one at its end.
pub open spec fn trimmed(path: Seq<u8>) -> Seq<u8> {
    let text = squeezed(path, 0);
    if text.len() > 1 && text.last() == SLASH {
        text.drop_last()
    } else {
        text
    }
}

/// Whether components are names.
spec fn are_names(names: Seq<ComponentView>) -> bool {
    forall|i: int| 0 <= i < names.len() ==> is_name(#[trigger] names[i])
}

spec fn is_name(component: ComponentView) -> bool {
    component matches ComponentView::Name(name) && name.len() > 0 && forall|j: int|
        0 <= j < name.len() ==> #[trigger] name[j] != SLASH
}

/// Names with separators between them, and one behind them where it counts.
spec fn spelled(names: Seq<ComponentView>, trailing: bool) -> Seq<u8>
    decreases names.len(),
{
    if names.len() == 0 {
        Seq::empty()
    } else {
        names[0]->Name_0 + (if names.len() > 1 {
            seq![SLASH] + spelled(names.drop_first(), trailing)
        } else if trailing {
            seq![SLASH]
        } else {
            Seq::empty()
        })
    }
}

proof fn lemma_squeezed_name(path: Seq<u8>, at: int)
    requires
        0 <= at <= path.len(),
    ensures
        squeezed(path, at) == path.subrange(at, name_end(path, at)) + squeezed(
            path,
            name_end(path, at),
        ),
    decreases path.len() - at,
{
    let end = name_end(path, at);
    lemma_name_end(path, at);
    if at < path.len() && path[at] != SLASH {
        lemma_squeezed_name(path, at + 1);
        lemma_name_end(path, at + 1);
        assert(path.subrange(at, end) =~= seq![path[at]] + path.subrange(at + 1, end));
        assert(squeezed(path, at) =~= path.subrange(at, end) + squeezed(path, end));
    } else {
        assert(path.subrange(at, at) + squeezed(path, at) =~= squeezed(path, at));
    }
}

proof fn lemma_squeezed_run(path: Seq<u8>, at: int)
    requires
        0 <= at < path.len(),
        path[at] == SLASH,
    ensures
        squeezed(path, at) == seq![SLASH] + squeezed(path, after_separators(path, at)),
    decreases path.len() - at,
{
    if at + 1 < path.len() && path[at + 1] == SLASH {
        lemma_squeezed_run(path, at + 1);
    } else {
        assert(after_separators(path, at + 1) == at + 1);
    }
}

proof fn lemma_separators_last(path: Seq<u8>, at: int)
    requires
        0 <= at < path.len(),
        path[at] == SLASH,
        after_separators(path, at) >= path.len(),
    ensures
        path.last() == SLASH,
    decreases path.len() - at,
{
    if at + 1 < path.len() {
        if path[at + 1] == SLASH {
            lemma_separators_last(path, at + 1);
        }
    }
}

proof fn lemma_name_bytes(path: Seq<u8>, at: int)
    requires
        0 <= at <= path.len(),
    ensures
        forall|i: int| at <= i < name_end(path, at) ==> #[trigger] path[i] != SLASH,
    decreases path.len() - at,
{
    if at < path.len() && path[at] != SLASH {
        lemma_name_bytes(path, at + 1);
    }
}

/// The names of a path spell it.
proof fn lemma_names_spell(path: Seq<u8>, at: int)
    requires
        0 <= at <= path.len(),
        at < path.len() ==> path[at] != SLASH,
    ensures
        are_names(names_from(path, at)),
        squeezed(path, at) == spelled(
            names_from(path, at),
            path.len() > 0 && path.last() == SLASH,
        ),
        at < path.len() ==> names_from(path, at).len() > 0,
    decreases path.len() - at,
{
    let trailing = path.len() > 0 && path.last() == SLASH;
    if at < path.len() {
        let end = name_end(path, at);
        let next = after_separators(path, end);
        lemma_name_end(path, at);
        lemma_after_separators(path, end);
        lemma_squeezed_name(path, at);
        lemma_name_bytes(path, at);
        let name = path.subrange(at, end);
        let names = names_from(path, at);
        lemma_names_spell(path, next);
        assert(names.drop_first() =~= names_from(path, next));
        assert forall|i: int| 0 <= i < names.len() implies is_name(#[trigger] names[i]) by {
            if i > 0 {
                assert(names[i] == names_from(path, next)[i - 1]);
            }
        }
        if end < path.len() {
            lemma_squeezed_run(path, end);
            if next < path.len() {
                assert(squeezed(path, at) =~= spelled(names, trailing));
            } else {
                lemma_separators_last(path, end);
                assert(squeezed(path, next) =~= Seq::<u8>::empty());
                assert(squeezed(path, at) =~= spelled(names, trailing));
            }
        } else {
            assert(path.last() == path[end - 1]);
            assert(squeezed(path, end) =~= Seq::<u8>::empty());
            assert(squeezed(path, at) =~= spelled(names, trailing));
        }
    }
}

/// Spelling names and then others.
proof fn lemma_spelled_both(first: Seq<ComponentView>, rest: Seq<ComponentView>, trailing: bool)
    requires
        first.len() > 0,
        rest.len() > 0,
    ensures
        spelled(first + rest, trailing) == spelled(first, false) + seq![SLASH] + spelled(
            rest,
            trailing,
        ),
    decreases first.len(),
{
    let both = first + rest;
    let name = first[0]->Name_0;
    assert(both.drop_first() =~= first.drop_first() + rest);
    if first.len() > 1 {
        lemma_spelled_both(first.drop_first(), rest, trailing);
        assert(spelled(both, trailing) =~= spelled(first, false) + seq![SLASH] + spelled(
            rest,
            trailing,
        ));
    } else {
        assert(first.drop_first() + rest =~= rest);
        assert(spelled(both, trailing) =~= spelled(first, false) + seq![SLASH] + spelled(
            rest,
            trailing,
        ));
    }
}

proof fn lemma_spelled_end(names: Seq<ComponentView>)
    requires
        are_names(names),
        names.len() > 0,
    ensures
        spelled(names, false).len() > 0,
        spelled(names, false).last() != SLASH,
        spelled(names, false)[0] != SLASH,
        spelled(names, true) == spelled(names, false).push(SLASH),
    decreases names.len(),
{
    assert(is_name(names[0]));
    let name = names[0]->Name_0;
    if names.len() > 1 {
        let rest = names.drop_first();
        assert forall|i: int| 0 <= i < rest.len() implies is_name(#[trigger] rest[i]) by {
            assert(is_name(names[i + 1]));
        }
        lemma_spelled_end(rest);
        assert(spelled(names, false).last() == spelled(rest, false).last());
        assert(spelled(names, true) =~= spelled(names, false).push(SLASH));
    } else {
        assert(spelled(names, false) =~= name);
        assert(spelled(names, true) =~= spelled(names, false).push(SLASH));
    }
}

/// Names joined beneath the root.
proof fn lemma_joined_names(names: Seq<ComponentView>)
    requires
        are_names(names),
    ensures
        joined(names) == seq![SLASH] + spelled(names, false),
        joined(seq![ComponentView::Root] + names) == seq![SLASH] + spelled(names, false),
    decreases names.len(),
{
    let rooted = seq![ComponentView::Root] + names;
    if names.len() == 0 {
        assert(rooted.drop_last() =~= Seq::<ComponentView>::empty());
        assert(joined(rooted.drop_last()) =~= seq![SLASH]);
        assert(joined(rooted) =~= seq![SLASH]);
        assert(seq![SLASH] + spelled(names, false) =~= seq![SLASH]);
    } else {
        let shorter = names.drop_last();
        let last = names.last();
        assert(is_name(names[names.len() - 1]));
        assert forall|i: int| 0 <= i < shorter.len() implies is_name(#[trigger] shorter[i]) by {
            assert(is_name(names[i]));
        }
        lemma_joined_names(shorter);
        assert(rooted.drop_last() =~= seq![ComponentView::Root] + shorter);
        assert(rooted.last() == last);
        assert(names =~= shorter + seq![last]);
        assert(spelled(seq![last], false) =~= last->Name_0);
        let before = seq![SLASH] + spelled(shorter, false);
        if shorter.len() > 0 {
            lemma_spelled_end(shorter);
            lemma_spelled_both(shorter, seq![last], false);
            assert(before.last() == spelled(shorter, false).last());
            assert(joined(names) =~= seq![SLASH] + spelled(names, false));
            assert(joined(rooted) =~= seq![SLASH] + spelled(names, false));
        } else {
            assert(names =~= seq![last]);
            assert(before =~= seq![SLASH]);
            assert(joined(names) =~= seq![SLASH] + spelled(names, false));
            assert(joined(rooted) =~= seq![SLASH] + spelled(names, false));
        }
    }
}

/// What a remainder is made of: perhaps the root, names, and perhaps a separator behind them.
spec fn remainder(is_rooted: bool, names: Seq<ComponentView>, trailing: bool) -> Seq<ComponentView> {
    (if is_rooted {
        seq![ComponentView::Root]
    } else {
        Seq::empty()
    }) + names + (if trailing {
        seq![ComponentView::TrailingSeparator]
    } else {
        Seq::empty()
    })
}

proof fn lemma_joined_remainder(is_rooted: bool, names: Seq<ComponentView>, trailing: bool)
    requires
        are_names(names),
    ensures
        joined(remainder(is_rooted, names, trailing)) == seq![SLASH] + spelled(names, trailing),
{
    lemma_joined_names(names);
    let all = remainder(is_rooted, names, trailing);
    let plain = remainder(is_rooted, names, false);
    if is_rooted {
        assert(plain =~= seq![ComponentView::Root] + names);
    } else {
        assert(plain =~= names);
    }
    if trailing {
        assert(all.drop_last() =~= plain);
        assert(all.last() == ComponentView::TrailingSeparator);
        if names.len() > 0 {
            lemma_spelled_end(names);
            assert((seq![SLASH] + spelled(names, false)).last() == spelled(names, false).last());
        }
        assert(joined(all) =~= seq![SLASH] + spelled(names, trailing));
    } else {
        assert(all =~= plain);
    }
}

pub open spec fn is_rooted(path: Seq<u8>) -> bool {
    path.len() > 0 && path[0] == SLASH
}

spec fn names_of(path: Seq<u8>) -> Seq<ComponentView> {
    names_from(path, after_separators(path, 0))
}

spec fn ends_open(path: Seq<u8>) -> bool {
    path.len() > 0 && path.last() == SLASH
}

spec fn root_text(rooted: bool) -> Seq<u8> {
    if rooted {
        seq![SLASH]
    } else {
        Seq::empty()
    }
}

proof fn lemma_parts(path: Seq<u8>)
    ensures
        are_names(names_of(path)),
        components_of(path, true) == remainder(is_rooted(path), names_of(path), ends_open(path)),
        components_of(path, false) == remainder(is_rooted(path), names_of(path), false),
        squeezed(path, 0) == root_text(is_rooted(path)) + spelled(
            names_of(path),
            ends_open(path),
        ),
        path.len() > 0 && !is_rooted(path) ==> names_of(path).len() > 0,
{
    let start = after_separators(path, 0);
    lemma_after_separators(path, 0);
    lemma_names_spell(path, start);
    if is_rooted(path) {
        lemma_squeezed_run(path, 0);
    } else {
        assert(start == 0);
        assert(root_text(false) + squeezed(path, 0) =~= squeezed(path, 0));
    }
    assert(components_of(path, true) =~= remainder(
        is_rooted(path),
        names_of(path),
        ends_open(path),
    ));
    assert(components_of(path, false) =~= remainder(is_rooted(path), names_of(path), false));
}

proof fn lemma_trimmed(prefix: Seq<u8>)
    ensures
        names_of(prefix).len() > 0 ==> trimmed(prefix) == root_text(is_rooted(prefix)) + spelled(
            names_of(prefix),
            false,
        ) && trimmed(prefix) != seq![SLASH],
        prefix.len() > 0 && names_of(prefix).len() == 0 ==> trimmed(prefix) == seq![SLASH]
            && is_rooted(prefix),
{
    lemma_parts(prefix);
    let names = names_of(prefix);
    let text = squeezed(prefix, 0);
    let root = root_text(is_rooted(prefix));
    if names.len() > 0 {
        lemma_spelled_end(names);
        let plain = root + spelled(names, false);
        assert(plain.last() == spelled(names, false).last());
        if ends_open(prefix) {
            assert(text =~= plain.push(SLASH));
            assert(text.drop_last() =~= plain);
        } else {
            assert(text =~= plain);
        }
        assert(seq![SLASH].last() == SLASH);
    } else if prefix.len() > 0 {
        assert(text =~= seq![SLASH]);
    }
}

/// Names that stand before a separator, or before the end, in what other names spell are the first
/// of them.
proof fn lemma_names_are_first(
    all: Seq<ComponentView>,
    trailing: bool,
    first: Seq<ComponentView>,
    rest: Seq<u8>,
)
    requires
        are_names(all),
        are_names(first),
        first.len() > 0,
        spelled(all, trailing) == spelled(first, false) + rest,
        rest.len() > 0 ==> rest[0] == SLASH,
    ensures
        first.len() <= all.len(),
        all.take(first.len() as int) == first,
    decreases first.len(),
{
    let text = spelled(all, trailing);
    lemma_spelled_end(first);
    assert(all.len() > 0);
    assert(is_name(all[0]) && is_name(first[0]));
    let own = all[0]->Name_0;
    let other = first[0]->Name_0;
    assert forall|i: int| 0 <= i < own.len() implies text[i] == #[trigger] own[i] by {}
    assert forall|i: int| 0 <= i < other.len() implies text[i] == #[trigger] other[i] by {
        assert(spelled(first, false)[i] == other[i]);
    }
    if own.len() < other.len() {
        assert(text[own.len() as int] == other[own.len() as int]);
        assert(text[own.len() as int] == SLASH);
        assert(false);
    }
    if other.len() < own.len() {
        assert(text[other.len() as int] == own[other.len() as int]);
        if first.len() > 1 {
            assert(spelled(first, false)[other.len() as int] == SLASH);
        } else {
            assert(spelled(first, false) =~= other);
            assert(text[other.len() as int] == rest[0]);
        }
        assert(false);
    }
    assert(own =~= other) by {
        assert forall|i: int| 0 <= i < own.len() implies own[i] == other[i] by {
            assert(text[i] == own[i]);
            assert(text[i] == other[i]);
        }
    }
    if first.len() > 1 {
        let more = all.drop_first();
        let others = first.drop_first();
        assert forall|i: int| 0 <= i < others.len() implies is_name(#[trigger] others[i]) by {
            assert(is_name(first[i + 1]));
        }
        assert forall|i: int| 0 <= i < more.len() implies is_name(#[trigger] more[i]) by {
            assert(is_name(all[i + 1]));
        }
        lemma_spelled_end(others);
        let behind = text.skip(own.len() as int + 1);
        assert(behind =~= spelled(others, false) + rest);
        if all.len() > 1 {
            assert(behind =~= spelled(more, trailing));
            lemma_names_are_first(more, trailing, others, rest);
            assert(all.take(first.len() as int) =~= seq![all[0]] + more.take(others.len() as int));
            assert(first =~= seq![first[0]] + others);
        } else {
            assert(text.len() <= own.len() + 1);
            assert(behind.len() == 0);
            assert(false);
        }
    } else {
        assert(all.take(1) =~= first);
    }
}

/// A path is beneath a prefix whose components are the first of its own, and what is left is the
/// components behind them.
proof fn lemma_first_components(
    rooted: bool,
    names: Seq<ComponentView>,
    trailing: bool,
    prefix_rooted: bool,
    first: Seq<ComponentView>,
)
    requires
        are_names(names),
        are_names(first),
        first.len() > 0,
    ensures
        ({
            let all = remainder(rooted, names, trailing);
            let own = remainder(prefix_rooted, first, false);
            let is_first = own.len() <= all.len() && all.take(own.len() as int) == own;
            &&& is_first <==> rooted == prefix_rooted && first.len() <= names.len() && names.take(
                first.len() as int,
            ) == first
            &&& is_first ==> all.skip(own.len() as int) == remainder(
                false,
                names.skip(first.len() as int),
                trailing,
            )
        }),
{
    let all = remainder(rooted, names, trailing);
    let own = remainder(prefix_rooted, first, false);
    let count = first.len() as int;
    let offset = if prefix_rooted {
        1int
    } else {
        0
    };
    assert(own.len() == offset + count);
    assert(is_name(first[0]));
    if own.len() <= all.len() && all.take(own.len() as int) == own {
        assert forall|i: int| 0 <= i < own.len() implies all[i] == #[trigger] own[i] by {
            assert(all.take(own.len() as int)[i] == all[i]);
        }
        assert(all[0] == own[0]);
        assert(own[offset] == first[0]);
        if names.len() > 0 {
            assert(is_name(names[0]));
        }
        assert(rooted == prefix_rooted);
        assert forall|i: int| 0 <= i < count implies i < names.len() && names[i]
            == #[trigger] first[i] by {
            assert(is_name(first[i]));
            assert(own[offset + i] == first[i]);
            assert(all[offset + i] == own[offset + i]);
        }
        assert(count <= names.len()) by {
            assert(names[count - 1] == first[count - 1]);
        }
        assert(names.take(count) =~= first);
    }
    if rooted == prefix_rooted && count <= names.len() && names.take(count) == first {
        assert forall|i: int| 0 <= i < count implies names[i] == #[trigger] first[i] by {
            assert(names.take(count)[i] == names[i]);
        }
        assert(all.take(own.len() as int) =~= own);
        assert(all.skip(own.len() as int) =~= remainder(false, names.skip(count), trailing));
    }
}

/// What is left beneath a prefix is what stands behind it, up to repeated separators, and a path is
/// beneath a prefix only where the prefix stands before it, byte by byte, up to a separator or the
/// end. Beneath `/` are the rooted paths as they are, and every path is beneath nothing.
pub proof fn remainders_follow_their_prefix(path: Seq<u8>, prefix: Seq<u8>)
    ensures
        ({
            let text = squeezed(path, 0);
            let before = trimmed(prefix);
            let length = before.len() as int;
            beneath(path, prefix) == (if prefix.len() == 0 {
                Some(
                    if is_rooted(path) {
                        text
                    } else {
                        seq![SLASH] + text
                    },
                )
            } else if before == seq![SLASH] {
                if is_rooted(path) {
                    Some(text)
                } else {
                    None
                }
            } else if text == before {
                Some(seq![SLASH])
            } else if length < text.len() && text.take(length) == before && text[length] == SLASH {
                Some(text.skip(length))
            } else {
                None
            })
        }),
{
    lemma_parts(path);
    lemma_parts(prefix);
    lemma_trimmed(prefix);
    let rooted = is_rooted(path);
    let names = names_of(path);
    let trailing = ends_open(path);
    let all = components_of(path, true);
    let first = names_of(prefix);
    let own = components_of(prefix, false);
    let text = squeezed(path, 0);
    lemma_joined_remainder(rooted, names, trailing);
    lemma_joined_remainder(false, names, trailing);
    if first.len() == 0 {
        lemma_beneath_root(path, prefix);
    } else {
        lemma_beneath_names(path, prefix);
    }
}

proof fn lemma_beneath_root(path: Seq<u8>, prefix: Seq<u8>)
    requires
        names_of(prefix).len() == 0,
    ensures
        prefix.len() == 0 ==> beneath(path, prefix) == Some(
            if is_rooted(path) {
                squeezed(path, 0)
            } else {
                seq![SLASH] + squeezed(path, 0)
            },
        ),
        prefix.len() > 0 ==> beneath(path, prefix) == (if is_rooted(path) {
            Some(squeezed(path, 0))
        } else {
            None
        }),
{
    lemma_parts(path);
    lemma_parts(prefix);
    lemma_trimmed(prefix);
    let rooted = is_rooted(path);
    let names = names_of(path);
    let trailing = ends_open(path);
    let all = components_of(path, true);
    let own = components_of(prefix, false);
    let text = squeezed(path, 0);
    lemma_joined_remainder(rooted, names, trailing);
    lemma_joined_remainder(false, names, trailing);
    assert(root_text(false) + spelled(names, trailing) =~= spelled(names, trailing));
    if prefix.len() == 0 {
        assert(own =~= Seq::<ComponentView>::empty());
        assert(all.take(0) =~= own);
        assert(all.skip(0) =~= all);
        assert(text =~= root_text(rooted) + spelled(names, trailing));
    } else {
        assert(own =~= seq![ComponentView::Root]);
        if rooted {
            assert(all.take(1) =~= own);
            assert(all.skip(1) =~= remainder(false, names, trailing));
        } else if all.len() > 0 {
            assert(all.take(1)[0] == all[0]);
            assert(own[0] == ComponentView::Root);
            if names.len() > 0 {
                assert(is_name(names[0]));
            }
        }
    }
}

#[verifier::rlimit(40)]
#[verifier::spinoff_prover]
proof fn lemma_beneath_names(path: Seq<u8>, prefix: Seq<u8>)
    requires
        names_of(prefix).len() > 0,
    ensures
        ({
            let text = squeezed(path, 0);
            let before = trimmed(prefix);
            let length = before.len() as int;
            beneath(path, prefix) == (if text == before {
                Some(seq![SLASH])
            } else if length < text.len() && text.take(length) == before && text[length] == SLASH {
                Some(text.skip(length))
            } else {
                None
            })
        }),
        prefix.len() > 0,
{
    lemma_parts(path);
    lemma_parts(prefix);
    lemma_trimmed(prefix);
    let rooted = is_rooted(path);
    let names = names_of(path);
    let trailing = ends_open(path);
    let first = names_of(prefix);
    let count = first.len() as int;
    let text = squeezed(path, 0);
    let before = trimmed(prefix);
    let length = before.len() as int;
    let root = root_text(is_rooted(prefix));
    lemma_first_components(rooted, names, trailing, is_rooted(prefix), first);
    lemma_spelled_end(first);
    if rooted == is_rooted(prefix) && count <= names.len() && names.take(count) == first {
        let rest = names.skip(count);
        assert forall|i: int| 0 <= i < rest.len() implies is_name(#[trigger] rest[i]) by {
            assert(is_name(names[i + count]));
        }
        lemma_joined_remainder(false, rest, trailing);
        assert(names =~= first + rest);
        if rest.len() > 0 {
            lemma_spelled_both(first, rest, trailing);
            assert(text =~= before + (seq![SLASH] + spelled(rest, trailing)));
            assert(text.take(length) =~= before);
            assert(text.skip(length) =~= seq![SLASH] + spelled(rest, trailing));
        } else {
            assert(names =~= first);
            assert(seq![SLASH] + spelled(rest, trailing) =~= seq![SLASH]);
            if trailing {
                assert(text =~= before.push(SLASH));
                assert(text.take(length) =~= before);
                assert(text.skip(length) =~= seq![SLASH]);
            } else {
                assert(text =~= before);
            }
        }
    } else if text == before || (length < text.len() && text.take(length) == before
        && text[length] == SLASH) {
        let rest = text.skip(length);
        assert(text =~= before + rest);
        assert(before[0] == text[0]);
        if names.len() > 0 {
            lemma_spelled_end(names);
            assert(spelled(names, trailing)[0] != SLASH);
        }
        if is_rooted(prefix) {
            assert(before[0] == SLASH);
            assert(rooted) by {
                if !rooted {
                    assert(text =~= spelled(names, trailing));
                }
            }
        } else {
            assert(before[0] == spelled(first, false)[0]);
            assert(!rooted) by {
                if rooted {
                    assert(text[0] == SLASH);
                }
            }
        }
        let cut = root.len() as int;
        assert((root + spelled(names, trailing)).skip(cut) =~= spelled(names, trailing));
        assert((root + spelled(first, false) + rest).skip(cut) =~= spelled(first, false) + rest);
        assert(spelled(names, trailing) =~= spelled(first, false) + rest);
        lemma_names_are_first(names, trailing, first, rest);
        assert(false);
    }
}

/// A prefix that a path does not begin with is refused: where the two differ in a byte before the
/// prefix ends, nothing is left.
pub proof fn foreign_paths_are_refused(path: Seq<u8>, prefix: Seq<u8>, at: int)
    requires
        prefix.len() > 0,
        0 <= at < trimmed(prefix).len(),
        at < squeezed(path, 0).len() ==> squeezed(path, 0)[at] != trimmed(prefix)[at],
    ensures
        beneath(path, prefix) is None,
{
    remainders_follow_their_prefix(path, prefix);
    let text = squeezed(path, 0);
    let before = trimmed(prefix);
    lemma_parts(path);
    if before == seq![SLASH] {
        if is_rooted(path) {
            assert(text[0] == SLASH);
        }
    } else if text.len() > before.len() && text.take(before.len() as int) == before {
        assert(text.take(before.len() as int)[at] == text[at]);
    }
}

/// A transformation removes its prefix, and then at most one separator at the front.
pub proof fn transformations_remove_what_they_name(view: TransformView, path: Seq<u8>)
    ensures
        ({
            let plain = TransformView { remove_leading_slash: false, ..view };
            match transformed(plain, path) {
                None => transformed(view, path) is None,
                Some(rest) => transformed(view, path) == Some(
                    if view.remove_leading_slash && is_rooted(rest) {
                        rest.drop_first()
                    } else {
                        rest
                    },
                ),
            }
        }),
        view.prefix is None ==> transformed(
            TransformView { remove_leading_slash: false, ..view },
            path,
        ) == Some(path),
        view.prefix matches Some(prefix) ==> transformed(
            TransformView { remove_leading_slash: false, ..view },
            path,
        ) == beneath(path, prefix),
{
    match transformed(TransformView { remove_leading_slash: false, ..view }, path) {
        None => {},
        Some(rest) => {
            if is_rooted(rest) {
                assert(rest.drop_first() =~= rest.skip(1));
            }
        },
    }
}

} // verus!
