//! Transformation of source filenames.

use clp_s::source_path::{
    SourcePathContextError, SourcePathTransform, SourcePathTransformError,
};

#[test]
fn no_options_preserve_lexical_path_spelling() {
    let transform = SourcePathTransform::new();

    assert_eq!(
        transform
            .transform(b"./inputs//nested/../event.json/")
            .expect("preserve path")
            .as_slice(),
        b"./inputs//nested/../event.json/"
    );
    assert_eq!(
        transform
            .transform(b"//srv/input.json")
            .expect("preserve double slash")
            .as_slice(),
        b"//srv/input.json"
    );
}

#[test]
fn prefix_removal_is_component_wise_and_rooted() {
    let transform = SourcePathTransform::new().with_prefix_to_remove(b"inputs".to_vec());

    assert_eq!(
        transform
            .transform(b"inputs/event.json")
            .expect("remove prefix")
            .as_slice(),
        b"/event.json"
    );
    assert_eq!(
        transform
            .transform(b"inputs/nested/event.json")
            .expect("remove nested prefix")
            .as_slice(),
        b"/nested/event.json"
    );
}

#[test]
fn trailing_prefix_separator_does_not_change_matching() {
    let transform = SourcePathTransform::new().with_prefix_to_remove(b"inputs///".to_vec());

    assert_eq!(
        transform
            .transform(b"inputs/event.json")
            .expect("remove trailing-separator prefix")
            .as_slice(),
        b"/event.json"
    );
}

#[test]
fn prefix_removal_preserves_parent_dot_and_trailing_components() {
    let transform = SourcePathTransform::new().with_prefix_to_remove(b"inputs/".to_vec());

    assert_eq!(
        transform
            .transform(b"inputs/../event.json")
            .expect("preserve parent component")
            .as_slice(),
        b"/../event.json"
    );
    assert_eq!(
        transform
            .transform(b"inputs/./event.json")
            .expect("preserve dot component")
            .as_slice(),
        b"/./event.json"
    );
    assert_eq!(
        transform
            .transform(b"inputs/nested/")
            .expect("preserve trailing separator")
            .as_slice(),
        b"/nested/"
    );
}

#[test]
fn root_prefix_matches_absolute_paths() {
    let transform = SourcePathTransform::new().with_prefix_to_remove(b"/".to_vec());

    assert_eq!(
        transform
            .transform(b"/inputs/event.json")
            .expect("remove root prefix")
            .as_slice(),
        b"/inputs/event.json"
    );
    assert_eq!(
        transform
            .transform(b"//inputs/event.json")
            .expect("remove root prefix from double slash")
            .as_slice(),
        b"/inputs/event.json"
    );
    assert!(matches!(
        transform.transform(b"inputs/event.json"),
        Err(SourcePathTransformError::PrefixMismatch { .. })
    ));
}

#[test]
fn explicit_empty_prefix_roots_relative_paths() {
    let transform = SourcePathTransform::new().with_prefix_to_remove(b"".to_vec());

    assert_eq!(
        transform
            .transform(b"inputs/event.json")
            .expect("remove empty prefix from relative path")
            .as_slice(),
        b"/inputs/event.json"
    );
    assert_eq!(
        transform
            .transform(b"/inputs/event.json")
            .expect("remove empty prefix from absolute path")
            .as_slice(),
        b"/inputs/event.json"
    );
}

#[test]
fn prefix_must_match_complete_components_and_path_kind() {
    for (path, prefix) in [
        ("inputs/event.json", "input"),
        ("inputs/event.json", "other"),
        ("inputs", "inputs/nested"),
        ("inputs/event.json", "/inputs"),
        ("/inputs/event.json", "inputs"),
    ] {
        let error = SourcePathTransform::new()
            .with_prefix_to_remove(prefix.as_bytes().to_vec())
            .transform(path.as_bytes())
            .expect_err("reject mismatched prefix");
        let SourcePathTransformError::PrefixMismatch {
            source_path: reported_path,
            prefix: reported_prefix,
        } = error
        else {
            panic!("unexpected error: {error:?}");
        };
        assert_eq!(reported_path, path.as_bytes());
        assert_eq!(reported_prefix, prefix.as_bytes());
    }
}

#[test]
fn leading_slash_removal_removes_exactly_one_byte() {
    let transform = SourcePathTransform::new().with_remove_leading_slash(true);

    assert_eq!(
        transform
            .transform(b"inputs/event.json")
            .expect("relative path")
            .as_slice(),
        b"inputs/event.json"
    );
    assert_eq!(
        transform
            .transform(b"/inputs/event.json")
            .expect("absolute path")
            .as_slice(),
        b"inputs/event.json"
    );
    assert_eq!(
        transform
            .transform(b"//inputs/event.json")
            .expect("double-leading slash path")
            .as_slice(),
        b"/inputs/event.json"
    );
}

#[test]
fn leading_slash_removal_runs_after_prefix_removal() {
    let transform = SourcePathTransform::new()
        .with_prefix_to_remove(b"inputs".to_vec())
        .with_remove_leading_slash(true);

    assert_eq!(
        transform
            .transform(b"inputs/nested/event.json")
            .expect("apply ordered transforms")
            .as_slice(),
        b"nested/event.json"
    );
}

#[test]
fn caller_supplied_canonical_paths_reproduce_normalize_then_transform_order() {
    let transform = SourcePathTransform::new()
        .with_prefix_to_remove(b"/work".to_vec())
        .with_remove_leading_slash(true);

    assert_eq!(
        transform
            .transform(b"/work/inputs/event.json")
            .expect("transform canonical path")
            .as_slice(),
        b"inputs/event.json"
    );
}

#[test]
fn source_context_is_the_explicit_utf8_boundary() {
    let context = SourcePathTransform::new()
        .with_prefix_to_remove(b"inputs".to_vec())
        .source_context(b"inputs/event.json", "creator".to_owned())
        .expect("create source context");

    assert_eq!(context.canonical_filename(), "/event.json");
    assert_eq!(context.archive_creator_id(), "creator".to_owned());
}

#[test]
fn native_non_utf8_path_survives_transform_but_not_source_context() {
    let path = b"inputs/event-\xff.json";
    let transform = SourcePathTransform::new().with_prefix_to_remove(b"inputs".to_vec());
    let transformed = transform.transform(path).expect("preserve native bytes");
    assert_eq!(transformed.as_slice(), b"/event-\xff.json");

    assert!(matches!(
        transform.source_context(path, "creator".to_owned()),
        Err(SourcePathContextError::NonUtf8 { .. })
    ));
}

#[test]
fn options_can_be_read_back() {
    let transform = SourcePathTransform::default();
    assert_eq!(None, transform.prefix_to_remove());
    assert!(!transform.removes_leading_slash());
    let transform = transform
        .with_prefix_to_remove(b"/a".to_vec())
        .with_remove_leading_slash(true);
    assert_eq!(Some(&b"/a"[..]), transform.prefix_to_remove());
    assert!(transform.removes_leading_slash());
}

#[test]
fn source_contexts_report_prefix_mismatches() {
    let transform = SourcePathTransform::new().with_prefix_to_remove(b"other".to_vec());
    assert!(matches!(
        transform.source_context(b"inputs/event.json", "creator".to_owned()),
        Err(SourcePathContextError::Transform(
            SourcePathTransformError::PrefixMismatch { .. }
        ))
    ));
}
