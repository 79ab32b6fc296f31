//! Self-contained copies of events.

use clp_s::kv_ir::{
    KvIrEncodedText, KvIrEncodedVariable, KvIrEncoding, KvIrLogEvent, KvIrNamespace, KvIrNodeType,
    KvIrPair, KvIrSchemaEntry, KvIrValueKind,
};
use clp_s::kv_ir_owned_event::{
    KvIrOwnedEvent, KvIrOwnedEventMaterializer, KvIrOwnedEventNode, KvIrOwnedSpan, KvIrOwnedValue,
    KvIrOwnedValueKind,
};
use clp_s::kv_ir_text::KvIrEncodedTextError;
use clp_s::owned_options::{
    KvIrOwnedEventError, KvIrOwnedEventLimitResource, KvIrOwnedEventLimits,
};

fn root<'a>() -> KvIrSchemaEntry<'a> {
    KvIrSchemaEntry { parent_id: None, depth: 0, key: b"", node_type: KvIrNodeType::Object }
}

fn entry(parent: u32, depth: u64, key: &[u8], node_type: KvIrNodeType) -> KvIrSchemaEntry<'_> {
    KvIrSchemaEntry { parent_id: Some(parent), depth, key, node_type }
}

fn log_event<'a>(
    pairs: &'a [KvIrPair<'a>],
    auto_schema: &'a [KvIrSchemaEntry<'a>],
    user_schema: &'a [KvIrSchemaEntry<'a>],
) -> KvIrLogEvent<'a> {
    KvIrLogEvent {
        pairs,
        auto_schema,
        user_schema,
        utc_offset_millis: 3_600_000,
        stream_index: 1,
        unit_index: 2,
        event_index: 3,
        input_offset: 4,
        unit_bytes: 5,
    }
}

fn pair<'a>(namespace: KvIrNamespace, node_id: u32, value: KvIrValueKind<'a>) -> KvIrPair<'a> {
    KvIrPair { namespace, node_id, value }
}

fn with_canonical_event<T>(check: impl FnOnce(KvIrLogEvent<'_>) -> T) -> T {
    let auto = KvIrNamespace::AutoGenerated;
    let user = KvIrNamespace::UserGenerated;
    let auto_schema = [
        root(),
        entry(0, 1, b"level", KvIrNodeType::String),
        entry(0, 1, b"seq", KvIrNodeType::Integer),
    ];
    let user_schema = [
        root(),
        entry(0, 1, b"empty", KvIrNodeType::Object),
        entry(0, 1, b"message", KvIrNodeType::String),
        entry(0, 1, b"none", KvIrNodeType::Object),
        entry(0, 1, b"ok", KvIrNodeType::Boolean),
        entry(0, 1, b"ratio", KvIrNodeType::Float),
    ];
    let variables = [KvIrEncodedVariable::FourByte(42)];
    let message = KvIrEncodedText {
        encoding: KvIrEncoding::FourByte,
        encoded_variables: &variables,
        dictionary_variables: &[],
        logtype: b"task \x11 done",
    };
    let pairs = [
        pair(auto, 1, KvIrValueKind::String(b"info")),
        pair(auto, 2, KvIrValueKind::Integer(7)),
        pair(user, 1, KvIrValueKind::EmptyObject),
        pair(user, 2, KvIrValueKind::EncodedText(message)),
        pair(user, 3, KvIrValueKind::Null),
        pair(user, 4, KvIrValueKind::Boolean(true)),
        pair(
            user,
            5,
            KvIrValueKind::Float { bits: 1.25_f64.to_bits(), fixed_nine: b"1.250000000" },
        ),
    ];
    check(log_event(&pairs, &auto_schema, &user_schema))
}

#[test]
fn current_magic_probe_requires_exactly_four_bytes() {
    const FOUR_BYTE_MAGIC_FOR_TEST: [u8; 4] = [0xfd, 0x2f, 0xb5, 0x29];
    const EIGHT_BYTE_MAGIC_FOR_TEST: [u8; 4] = [0xfd, 0x2f, 0xb5, 0x30];

    assert_eq!(
        Some(KvIrEncoding::FourByte),
        KvIrEncoding::from_magic_number(&FOUR_BYTE_MAGIC_FOR_TEST)
    );
    assert_eq!(
        Some(KvIrEncoding::EightByte),
        KvIrEncoding::from_magic_number(&EIGHT_BYTE_MAGIC_FOR_TEST)
    );
    assert_eq!(
        None,
        KvIrEncoding::from_magic_number(&FOUR_BYTE_MAGIC_FOR_TEST[..3])
    );
    assert_eq!(
        None,
        KvIrEncoding::from_magic_number(&[
            FOUR_BYTE_MAGIC_FOR_TEST[0],
            FOUR_BYTE_MAGIC_FOR_TEST[1],
            FOUR_BYTE_MAGIC_FOR_TEST[2],
            FOUR_BYTE_MAGIC_FOR_TEST[3],
            0,
        ])
    );
    assert_eq!(None, KvIrEncoding::from_magic_number(&[0; 4]));
}

#[test]
fn log_event_resolves_schema_without_a_consumer_owned_copy() {
    let owned = with_canonical_event(|event| {
        assert_eq!(3, event.schema(KvIrNamespace::AutoGenerated).len());
        assert_eq!(6, event.schema(KvIrNamespace::UserGenerated).len());
        let root = event.schema(KvIrNamespace::UserGenerated)[0];
        assert_eq!(None, root.parent_id);
        assert_eq!(b"", root.key);
        assert_eq!(KvIrNodeType::Object, root.node_type);
        for pair in event.pairs {
            let node = event.schema(pair.namespace)[pair.node_id as usize];
            assert!(node.parent_id.is_some());
        }
        let message = event.schema(KvIrNamespace::UserGenerated)[2];
        assert_eq!(b"message", message.key);
        assert_eq!(1, message.depth);
        let encoded = match event.pairs[3].value {
            KvIrValueKind::EncodedText(encoded) => encoded,
            value => panic!("message pair should be encoded text, got {value:?}"),
        };
        let mut decoded = b"prefix:".to_vec();
        let decoded_range = encoded
            .append_decoded_to(&mut decoded, 64)
            .expect("canonical encoded text reconstructs");
        assert_eq!(b"task 42 done", &decoded[decoded_range]);
        let before_error = decoded.clone();
        assert!(matches!(
            encoded.append_decoded_to(&mut decoded, 1),
            Err(KvIrEncodedTextError::Limit { .. })
        ));
        assert_eq!(before_error, decoded, "failed reconstruction is atomic");
        KvIrOwnedEvent::materialize(event, KvIrOwnedEventLimits::default())
            .expect("canonical event materializes")
    });
    let auto = owned.nodes(KvIrNamespace::AutoGenerated);
    let user = owned.nodes(KvIrNamespace::UserGenerated);
    assert_eq!(2, auto.len());
    assert_eq!(5, user.len());
    assert_eq!(b"level", owned.resolve(auto[0].key_span()).unwrap());
    assert_eq!(b"seq", owned.resolve(auto[1].key_span()).unwrap());
    let KvIrOwnedValue::String(level) = auto[0].value() else {
        panic!("level should be an owned string")
    };
    assert_eq!(b"info", owned.resolve(level).unwrap());
    assert_eq!(KvIrOwnedValue::Integer(7), auto[1].value());

    let user_keys: Vec<&[u8]> = user
        .iter()
        .map(|node| owned.resolve(node.key_span()).unwrap())
        .collect();
    assert_eq!(
        [
            b"empty".as_slice(),
            b"message".as_slice(),
            b"none".as_slice(),
            b"ok".as_slice(),
            b"ratio".as_slice(),
        ],
        user_keys.as_slice()
    );
    assert_eq!(KvIrOwnedValue::EmptyObject, user[0].value());
    let KvIrOwnedValue::String(message) = user[1].value() else {
        panic!("message should be reconstructed once into the owned arena")
    };
    assert_eq!(b"task 42 done", owned.resolve(message).unwrap());
    assert_eq!(KvIrOwnedValue::Null, user[2].value());
    assert_eq!(KvIrOwnedValue::Boolean(true), user[3].value());
    assert_eq!(KvIrOwnedValue::Float { bits: 1.25_f64.to_bits() }, user[4].value());
    assert_eq!(KvIrOwnedValueKind::Float, user[4].value_kind());
    assert_eq!(1.25_f64.to_bits(), user[4].scalar_bits());
    assert_eq!(
        (3_600_000, 1, 2, 3, 4),
        (
            owned.utc_offset_millis(),
            owned.stream_index(),
            owned.unit_index(),
            owned.event_index(),
            owned.input_offset()
        )
    );
    assert_eq!(None, owned.resolve(KvIrOwnedSpan { offset: 47, length: 1 }));
}

#[test]
fn owned_event_arena_limit_is_exact_and_structured_near_boundary() {
    let materialize = |limits: KvIrOwnedEventLimits| {
        with_canonical_event(|event| KvIrOwnedEvent::materialize(event, limits))
    };

    let expected = materialize(KvIrOwnedEventLimits::default())
        .expect("canonical event materializes with default limits");
    assert_eq!(47, expected.arena().len());
    let at_limit = materialize(KvIrOwnedEventLimits::new().with_max_arena_bytes(47))
        .expect("arena whose final byte reaches the limit materializes");
    assert_eq!(
        expected.nodes(KvIrNamespace::AutoGenerated),
        at_limit.nodes(KvIrNamespace::AutoGenerated)
    );
    assert_eq!(
        expected.nodes(KvIrNamespace::UserGenerated),
        at_limit.nodes(KvIrNamespace::UserGenerated)
    );
    assert_eq!(expected.arena(), at_limit.arena());

    let error = materialize(KvIrOwnedEventLimits::new().with_max_arena_bytes(46))
        .expect_err("one byte below the required arena size reaches the structured limit");
    assert!(matches!(
        error,
        KvIrOwnedEventError::Limit {
            resource: KvIrOwnedEventLimitResource::ArenaBytes,
            actual: 47,
            limit: 46
        }
    ));
}

#[test]
fn owned_event_namespace_views_preserve_an_empty_trailing_namespace() {
    let auto_schema = [root(), entry(0, 1, b"count", KvIrNodeType::Integer)];
    let user_schema = [root()];
    let pairs = [pair(KvIrNamespace::AutoGenerated, 1, KvIrValueKind::Integer(42))];
    let owned = KvIrOwnedEvent::materialize(
        log_event(&pairs, &auto_schema, &user_schema),
        KvIrOwnedEventLimits::default(),
    )
    .expect("auto-only event materializes");
    let auto = owned.nodes(KvIrNamespace::AutoGenerated);
    let user = owned.nodes(KvIrNamespace::UserGenerated);
    assert_eq!(1, auto.len());
    assert_eq!(0, user.len());
    assert_eq!(b"count", owned.resolve(auto[0].key_span()).unwrap());
    assert_eq!(KvIrOwnedValue::Integer(42), auto[0].value());
}

#[test]
fn owned_event_is_dfs_ordered_even_when_pair_wire_order_differs() {
    let user = KvIrNamespace::UserGenerated;
    let auto_schema = [root()];
    let user_schema = [
        root(),
        entry(0, 1, b"a", KvIrNodeType::Object),
        entry(0, 1, b"z", KvIrNodeType::Integer),
        entry(1, 2, b"c", KvIrNodeType::Integer),
    ];
    let pairs = [
        pair(user, 3, KvIrValueKind::Integer(30)),
        pair(user, 2, KvIrValueKind::Integer(20)),
    ];
    let event = log_event(&pairs, &auto_schema, &user_schema);
    let mut materializer =
        KvIrOwnedEventMaterializer::new().expect("materialization scratch initializes");
    let owned = materializer
        .materialize(event, KvIrOwnedEventLimits::default())
        .expect("nested event materializes");
    let auto = owned.nodes(KvIrNamespace::AutoGenerated);
    let nodes = owned.nodes(KvIrNamespace::UserGenerated);
    assert_eq!(0, auto.len());
    assert_eq!(3, nodes.len());
    let keys: Vec<&[u8]> = nodes
        .iter()
        .map(|node| owned.resolve(node.key_span()).unwrap())
        .collect();
    assert_eq!(
        [b"a".as_slice(), b"c".as_slice(), b"z".as_slice()],
        keys.as_slice()
    );
    assert_eq!(
        [1, 2, 1],
        nodes
            .iter()
            .copied()
            .map(KvIrOwnedEventNode::depth)
            .collect::<Vec<_>>()
            .as_slice()
    );
    assert_eq!(KvIrOwnedValue::Object, nodes[0].value());
    assert_eq!(KvIrOwnedValue::Integer(30), nodes[1].value());
    assert_eq!(KvIrOwnedValue::Integer(20), nodes[2].value());

    let error = materializer
        .materialize(
            event,
            KvIrOwnedEventLimits::new().with_max_materialized_nodes(2),
        )
        .expect_err("three selected nodes exceed the limit");
    assert!(matches!(
        error,
        KvIrOwnedEventError::Limit {
            resource: KvIrOwnedEventLimitResource::MaterializedNodes,
            actual: 3,
            limit: 2
        }
    ));

    let recovered = materializer
        .materialize(event, KvIrOwnedEventLimits::default())
        .expect("scratch remains reusable after an error");
    assert_eq!(nodes, recovered.nodes(KvIrNamespace::UserGenerated));
    assert_eq!(owned.arena(), recovered.arena());
}

#[test]
fn owned_event_preserves_nested_sibling_schema_order_for_interleaved_wire_order() {
    let user = KvIrNamespace::UserGenerated;
    let auto_schema = [root()];
    let user_schema = [
        root(),
        entry(0, 1, b"a", KvIrNodeType::Object),
        entry(0, 1, b"z", KvIrNodeType::Integer),
        entry(1, 2, b"c", KvIrNodeType::Integer),
        entry(1, 2, b"b", KvIrNodeType::Object),
        entry(4, 3, b"y", KvIrNodeType::Integer),
        entry(1, 2, b"d", KvIrNodeType::Integer),
        entry(0, 1, b"m", KvIrNodeType::Integer),
        entry(4, 3, b"x", KvIrNodeType::Integer),
    ];
    let pairs = [
        pair(user, 5, KvIrValueKind::Integer(50)),
        pair(user, 7, KvIrValueKind::Integer(70)),
        pair(user, 6, KvIrValueKind::Integer(60)),
        pair(user, 8, KvIrValueKind::Integer(80)),
        pair(user, 2, KvIrValueKind::Integer(20)),
        pair(user, 3, KvIrValueKind::Integer(30)),
    ];
    let owned = KvIrOwnedEvent::materialize(
        log_event(&pairs, &auto_schema, &user_schema),
        KvIrOwnedEventLimits::default(),
    )
    .expect("interleaved nested event materializes");
    assert_eq!(owned.nodes(KvIrNamespace::AutoGenerated), []);
    let nodes = owned.nodes(KvIrNamespace::UserGenerated);
    let keys: Vec<&[u8]> = nodes
        .iter()
        .map(|node| owned.resolve(node.key_span()).unwrap())
        .collect();
    assert_eq!(
        [
            b"a".as_slice(),
            b"c".as_slice(),
            b"b".as_slice(),
            b"y".as_slice(),
            b"x".as_slice(),
            b"d".as_slice(),
            b"z".as_slice(),
            b"m".as_slice(),
        ],
        keys.as_slice()
    );
    assert_eq!(
        [1, 2, 2, 3, 3, 2, 1, 1],
        nodes
            .iter()
            .copied()
            .map(KvIrOwnedEventNode::depth)
            .collect::<Vec<_>>()
            .as_slice()
    );
    assert_eq!(
        [
            KvIrOwnedValue::Object,
            KvIrOwnedValue::Integer(30),
            KvIrOwnedValue::Object,
            KvIrOwnedValue::Integer(50),
            KvIrOwnedValue::Integer(80),
            KvIrOwnedValue::Integer(60),
            KvIrOwnedValue::Integer(20),
            KvIrOwnedValue::Integer(70),
        ],
        nodes
            .iter()
            .copied()
            .map(KvIrOwnedEventNode::value)
            .collect::<Vec<_>>()
            .as_slice()
    );
    assert_eq!(b"acbyxdzm", owned.arena());
}

#[test]
fn owned_event_large_index_preserves_schema_order_for_reverse_wire_order() {
    const NODE_COUNT: u8 = 40;
    let user = KvIrNamespace::UserGenerated;
    let keys: Vec<[u8; 4]> = (0..NODE_COUNT).map(|index| u32::from(index).to_be_bytes()).collect();
    let auto_schema = [root()];
    let mut user_schema = vec![root()];
    for key in &keys {
        user_schema.push(entry(0, 1, key, KvIrNodeType::Integer));
    }
    let pairs: Vec<KvIrPair<'_>> = (1..=NODE_COUNT)
        .rev()
        .map(|node_id| {
            pair(user, u32::from(node_id), KvIrValueKind::Integer(i64::from(node_id)))
        })
        .collect();
    let mut materializer =
        KvIrOwnedEventMaterializer::new().expect("materialization scratch initializes");
    let owned = materializer
        .materialize(
            log_event(&pairs, &auto_schema, &user_schema),
            KvIrOwnedEventLimits::default(),
        )
        .expect("wide reverse-order event materializes");
    let nodes = owned.nodes(KvIrNamespace::UserGenerated);
    assert_eq!(usize::from(NODE_COUNT), nodes.len());
    for (index, node) in nodes.iter().copied().enumerate() {
        assert_eq!(
            u32::try_from(index).unwrap().to_be_bytes(),
            owned.resolve(node.key_span()).unwrap()
        );
        assert_eq!(
            KvIrOwnedValue::Integer(i64::try_from(index + 1).unwrap()),
            node.value()
        );
    }
}

#[test]
fn inconsistent_events_are_located() {
    let user = KvIrNamespace::UserGenerated;
    let auto_schema = [root()];
    let user_schema = [
        root(),
        entry(0, 1, b"a", KvIrNodeType::Integer),
        entry(1, 2, b"b", KvIrNodeType::Integer),
        KvIrSchemaEntry { parent_id: None, depth: 1, key: b"c", node_type: KvIrNodeType::Integer },
        entry(0, 1, b"d", KvIrNodeType::String),
    ];
    let error = |pairs: &[KvIrPair<'_>], limits: KvIrOwnedEventLimits| {
        KvIrOwnedEvent::materialize(log_event(pairs, &auto_schema, &user_schema), limits)
            .expect_err("inconsistent event")
    };
    let defaults = KvIrOwnedEventLimits::new();
    let null = KvIrValueKind::Null;
    assert_eq!(
        KvIrOwnedEventError::MissingSchemaNode { namespace: user, node_id: 9 },
        error(&[pair(user, 9, null)], defaults)
    );
    assert_eq!(
        KvIrOwnedEventError::InvalidSchemaPath { namespace: user, node_id: 3 },
        error(&[pair(user, 3, null)], defaults)
    );
    assert_eq!(
        KvIrOwnedEventError::InvalidSchemaPath { namespace: user, node_id: 1 },
        error(&[pair(user, 2, null)], defaults)
    );
    assert_eq!(
        KvIrOwnedEventError::DuplicatePair { namespace: user, node_id: 1 },
        error(&[pair(user, 1, null), pair(user, 1, null)], defaults)
    );
    let text = KvIrEncodedText {
        encoding: KvIrEncoding::FourByte,
        encoded_variables: &[],
        dictionary_variables: &[],
        logtype: b"abc\x11",
    };
    assert_eq!(
        KvIrOwnedEventError::EncodedText {
            namespace: user,
            node_id: 4,
            source: KvIrEncodedTextError::MissingEncodedVariable,
        },
        error(&[pair(user, 4, KvIrValueKind::EncodedText(text))], defaults)
    );
    let plain = KvIrEncodedText { logtype: b"abc", ..text };
    assert_eq!(
        KvIrOwnedEventError::Limit {
            resource: KvIrOwnedEventLimitResource::ReconstructedValueBytes,
            actual: 3,
            limit: 2,
        },
        error(
            &[pair(user, 4, KvIrValueKind::EncodedText(plain))],
            defaults.with_max_reconstructed_value_bytes(2)
        )
    );
    assert_eq!(
        KvIrOwnedEventError::InvalidSchemaPath { namespace: user, node_id: 1 },
        error(&[pair(user, 1, KvIrValueKind::EncodedText(plain))], defaults)
    );
}
