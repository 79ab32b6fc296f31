//! What each growing step does when its memory is granted, and when it is refused.

use clp_s::archive_options::{KvIrArchiveFailure, KvIrArchiveResource};
use clp_s::archive_plan::{push_reserved_event, PlannedEvent};
use clp_s::archive_schema::ArchiveTree;
use clp_s::json::{
    append_reserved_fragment, append_reserved_str_fragment, JsonEscapeError, JsonFraming,
};
use clp_s::kv_ir::{KvIrEncoding, KvIrNamespace, KvIrNodeType, KvIrSchemaNode};
use clp_s::kv_ir_owned_event::append_reserved_bytes;
use clp_s::kv_ir_serializer::staged_preamble;
use clp_s::kv_ir_text::{
    append_reserved, append_reserved_float, EncodedTextFault, FloatProperties, TextFailure,
};
use clp_s::owned_options::{KvIrOwnedEventError, KvIrOwnedEventResource};
use clp_s::owned_order::{push_reserved_step, TempTree};
use clp_s::serializer_options::{
    KvIrSerializerError, KvIrSerializerLimitResource, KvIrSerializerLimits, KvIrSerializerOptions,
};
use clp_s::stage::extend_reserved;

#[test]
fn refused_text_is_reported_and_left_out() {
    let mut output = b"kept".to_vec();
    assert!(matches!(
        append_reserved(&mut output, b"more", false),
        Err(TextFailure::AllocationFailed { requested_additional: 4 })
    ));
    assert_eq!(b"kept".to_vec(), output);
    assert!(append_reserved(&mut output, b"more", true).is_ok());
    assert_eq!(b"keptmore".to_vec(), output);
}

#[test]
fn refused_packets_are_reported_and_left_out() {
    let mut output = b"kept".to_vec();
    match extend_reserved(&mut output, &[1, 2, 3], "event output", false) {
        Err(KvIrSerializerError::AllocationFailed { resource, requested_additional }) => {
            assert_eq!(("event output", 3), (resource, requested_additional));
        }
        outcome => panic!("unexpected outcome: {outcome:?}"),
    }
    assert_eq!(b"kept".to_vec(), output);
    assert!(extend_reserved(&mut output, &[1, 2, 3], "event output", true).is_ok());
    assert_eq!(b"kept\x01\x02\x03".to_vec(), output);
}

#[test]
fn refused_arena_bytes_are_reported_and_left_out() {
    let mut arena = b"kept".to_vec();
    assert_eq!(
        Err(KvIrOwnedEventError::AllocationFailed {
            resource: KvIrOwnedEventResource::EventArena,
            requested_additional: 2,
        }),
        append_reserved_bytes(&mut arena, b"xy", false)
    );
    assert_eq!(b"kept".to_vec(), arena);
    assert_eq!(Ok(()), append_reserved_bytes(&mut arena, b"xy", true));
    assert_eq!(b"keptxy".to_vec(), arena);
}

#[test]
fn refused_plan_events_are_reported_and_left_out() {
    let mut plan = Vec::new();
    match push_reserved_event(&mut plan, PlannedEvent::ObjectEnd, false) {
        Err(KvIrArchiveFailure::AllocationFailed { resource, requested_additional }) => {
            assert_eq!((KvIrArchiveResource::RecordPlan, 1), (resource, requested_additional));
        }
        outcome => panic!("unexpected outcome: {outcome:?}"),
    }
    assert!(plan.is_empty());
    assert!(push_reserved_event(&mut plan, PlannedEvent::ObjectEnd, true).is_ok());
    assert!(matches!(plan.as_slice(), [PlannedEvent::ObjectEnd]));
}

#[test]
fn refused_fragments_are_reported_and_left_out() {
    let refused = Err(JsonEscapeError::AllocationFailed { requested_additional: 5 });
    let mut bytes = b"kept".to_vec();
    assert_eq!(
        refused,
        append_reserved_fragment(b"a\n", &mut bytes, JsonFraming::String, 5, false)
    );
    assert_eq!(b"kept".to_vec(), bytes);
    assert_eq!(Ok(()), append_reserved_fragment(b"a\n", &mut bytes, JsonFraming::String, 5, true));
    assert_eq!(b"kept\"a\\n\"".to_vec(), bytes);

    let mut text = String::from("kept");
    assert_eq!(refused, append_reserved_str_fragment("a\n", &mut text, JsonFraming::String, 5, false));
    assert_eq!("kept", text);
    assert_eq!(Ok(()), append_reserved_str_fragment("a\n", &mut text, JsonFraming::String, 5, true));
    assert_eq!("kept\"a\\n\"", text);
}

#[test]
fn refused_preambles_are_reported() {
    let options = KvIrSerializerOptions::new(KvIrEncoding::FourByte);
    match staged_preamble(options, b"{}", Vec::new(), false) {
        Err(KvIrSerializerError::AllocationFailed { resource, requested_additional }) => {
            assert_eq!(("pending output", 9), (resource, requested_additional));
        }
        outcome => panic!("unexpected outcome: {outcome:?}"),
    }
    assert_eq!(
        vec![0xfd, 0x2f, 0xb5, 0x29, 0x01, 0x11, 2, b'{', b'}'],
        staged_preamble(options, b"{}", Vec::new(), true).expect("granted preamble")
    );
    let limits = KvIrSerializerLimits::new().with_max_pending_output_bytes(8);
    assert!(matches!(
        staged_preamble(options.with_limits(limits), b"{}", Vec::new(), true),
        Err(KvIrSerializerError::Limit(violation))
            if violation.resource() == KvIrSerializerLimitResource::PendingOutputBytes
                && violation.actual() == 9
    ));
}

#[test]
fn refused_schema_nodes_are_reported_and_left_out() {
    let mut tree = ArchiveTree::empty();
    tree.reset().expect("root");
    let node = KvIrSchemaNode {
        namespace: KvIrNamespace::UserGenerated,
        node_id: 1,
        parent_id: 0,
        depth: 1,
        key: b"key",
        node_type: KvIrNodeType::Integer,
        stream_index: 0,
        unit_index: 0,
        input_offset: 0,
    };
    for (key_reserved, node_reserved, expected) in [
        (false, false, (KvIrArchiveResource::SchemaKey, 3)),
        (true, false, (KvIrArchiveResource::SchemaNodes, 1)),
    ] {
        match tree.insert_reserved(node, None, Vec::new(), key_reserved, node_reserved) {
            Err(KvIrArchiveFailure::AllocationFailed { resource, requested_additional }) => {
                assert_eq!(expected, (resource, requested_additional));
            }
            outcome => panic!("unexpected outcome: {outcome:?}"),
        }
        assert_eq!(1, tree.len());
    }
    assert!(tree.insert_reserved(node, None, Vec::new(), true, true).is_ok());
    assert_eq!(2, tree.len());
    assert_eq!(Some(1), tree.first_child(0));
    assert_eq!(KvIrNodeType::Integer, tree.node_type(1));
}

#[test]
fn refused_floats_are_reported_and_left_out() {
    let properties =
        FloatProperties { negative: true, digits: 125, digit_count: 4, decimal_position: 2 };
    let mut output = b"kept".to_vec();
    assert!(matches!(
        append_reserved_float(&mut output, properties, false),
        Err(TextFailure::AllocationFailed { requested_additional: 6 })
    ));
    assert_eq!(b"kept".to_vec(), output);
    let wide = FloatProperties { digits: 12_345, ..properties };
    assert!(matches!(
        append_reserved_float(&mut output, wide, true),
        Err(TextFailure::Malformed(EncodedTextFault::EncodedFloatDigitCount))
    ));
    assert_eq!(b"kept".to_vec(), output);
    assert!(append_reserved_float(&mut output, properties, true).is_ok());
    assert_eq!(b"kept-01.25".to_vec(), output);
}

#[test]
fn refused_selections_are_reported() {
    let refused = |resource| {
        Some(KvIrOwnedEventError::AllocationFailed { resource, requested_additional: 1 })
    };
    assert_eq!(
        refused(KvIrOwnedEventResource::TemporaryNodes),
        TempTree::with_storage(Vec::new(), false).err()
    );
    assert_eq!(1, TempTree::with_storage(Vec::new(), true).expect("granted root").nodes.len());
    let mut path = vec![7];
    assert_eq!(
        refused(KvIrOwnedEventResource::TemporaryPath),
        push_reserved_step(&mut path, 3, false).err()
    );
    assert_eq!(vec![7], path);
    assert_eq!(Ok(()), push_reserved_step(&mut path, 3, true));
    assert_eq!(vec![7, 3], path);
}
