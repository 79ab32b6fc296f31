//! Classification of inputs and replay of their probes.

use clp_s::kv_ir::KvIrEncoding;
use clp_s::structured_stream::{
    classify_prefix, classify_with, route, ProbeAllocationFailed, StructuredInputKind,
    StructuredProbe, StructuredRoute, StructuredStreamStats, PROBE_CAPACITY, PROBE_READ_BYTES,
};
use clp_s::text::Utf8Fault;

fn kind(bytes: &[u8]) -> StructuredInputKind {
    let mut probe = StructuredProbe::new().expect("probe storage");
    let mut rest = bytes;
    while probe.wanted() > 0 && !rest.is_empty() {
        let count = probe.wanted().min(rest.len());
        probe.supply(&rest[..count]);
        rest = &rest[count..];
    }
    probe.finish(()).kind()
}

#[test]
fn classifier_matches_cpp_precedence_and_truncated_utf8() {
    assert_eq!(StructuredInputKind::Empty, kind(b""));
    assert_eq!(StructuredInputKind::Json, kind(b" \n{\"x\":1}"));
    assert_eq!(StructuredInputKind::LogText, kind(b"plain log\n"));
    assert_eq!(StructuredInputKind::LogText, kind(b"ascii\xe2\x82"));
    assert_eq!(StructuredInputKind::Unknown, kind(b"\xe2\x82"));
    assert_eq!(StructuredInputKind::Unknown, kind(b"ok\xff"));
}

#[test]
fn probe_replays_every_plaintext_byte() {
    let source = vec![b'x'; PROBE_CAPACITY + 17];
    let mut probe = StructuredProbe::new().expect("probe storage");
    let mut offset = 0;
    while probe.wanted() > 0 {
        let count = probe.wanted();
        probe.supply(&source[offset..offset + count]);
        offset += count;
    }
    assert_eq!(PROBE_CAPACITY, offset);
    let mut input = probe.finish(&source[offset..]);
    let mut replayed = Vec::new();
    loop {
        let chunk = input.replay(1_000);
        if chunk.is_empty() {
            break;
        }
        replayed.extend_from_slice(chunk);
    }
    replayed.extend_from_slice(input.decoded());
    assert_eq!(source, replayed);
}

#[test]
fn magic_numbers_take_precedence() {
    assert_eq!(
        StructuredInputKind::KvIr(KvIrEncoding::FourByte),
        classify_prefix(&[0xfd, 0x2f, 0xb5, 0x29, b'{'])
    );
    assert_eq!(
        StructuredInputKind::KvIr(KvIrEncoding::EightByte),
        classify_prefix(&[0xfd, 0x2f, 0xb5, 0x30])
    );
    assert_eq!(StructuredInputKind::Unknown, classify_prefix(&[0xfd, 0x2f, 0xb5]));
    assert_eq!(StructuredInputKind::Json, classify_prefix(b"\x0c\t{"));
    assert_eq!(StructuredInputKind::LogText, classify_prefix(b"\x0b{"));
}

#[test]
fn only_a_cut_off_character_counts_as_text() {
    let fault = |valid_up_to, error_len| Some(Utf8Fault { valid_up_to, error_len });
    assert_eq!(StructuredInputKind::LogText, classify_with(b"text", None));
    assert_eq!(StructuredInputKind::LogText, classify_with(b"text", fault(2, None)));
    assert_eq!(StructuredInputKind::Unknown, classify_with(b"text", fault(0, None)));
    assert_eq!(StructuredInputKind::Unknown, classify_with(b"text", fault(2, Some(1))));
}

#[test]
fn routes_and_counters_follow_the_class() {
    assert_eq!(Ok(StructuredRoute::Json), route(StructuredInputKind::Json));
    assert_eq!(Ok(StructuredRoute::Json), route(StructuredInputKind::Empty));
    assert_eq!(
        Ok(StructuredRoute::KvIr),
        route(StructuredInputKind::KvIr(KvIrEncoding::FourByte))
    );
    for rejected in [StructuredInputKind::LogText, StructuredInputKind::Unknown] {
        assert_eq!(Err(rejected), route(rejected));
    }
    assert_eq!("unstructured log text", StructuredInputKind::LogText.description());
    let stats = StructuredStreamStats::of_kv_ir(7, 2);
    assert_eq!((7, 2, 0), (stats.input_bytes(), stats.records(), stats.truncated_json_bytes()));
    assert_eq!(PROBE_READ_BYTES, StructuredProbe::new().expect("probe storage").wanted());
}

#[test]
fn probes_need_memory_for_all_they_keep() {
    let probe = StructuredProbe::with_storage(b"left over".to_vec(), true).expect("reserved");
    assert_eq!(PROBE_READ_BYTES, probe.wanted());
    assert_eq!(StructuredInputKind::Empty, probe.finish(()).kind());
    assert_eq!(
        Some(ProbeAllocationFailed { requested_additional: 65_536 }),
        StructuredProbe::with_storage(Vec::new(), false).err()
    );
}

#[test]
fn chunks_do_not_change_the_class() {
    let mut late = vec![b'x'; PROBE_CAPACITY];
    late.push(0xff);
    let mut early = vec![b'x'; PROBE_CAPACITY - 1];
    early.extend_from_slice(&[0xff, b'x']);
    for size in [1, 7, PROBE_READ_BYTES] {
        for (source, expected) in [
            (&late, StructuredInputKind::LogText),
            (&early, StructuredInputKind::Unknown),
        ] {
            let mut probe = StructuredProbe::new().expect("probe storage");
            let mut offset = 0;
            while probe.wanted() > 0 {
                let count = size.min(probe.wanted());
                probe.supply(&source[offset..offset + count]);
                offset += count;
            }
            assert_eq!(PROBE_CAPACITY, offset);
            assert_eq!(expected, probe.finish(()).kind(), "chunks of {size}");
        }
    }
}
