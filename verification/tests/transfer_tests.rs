use sonic_share::transfer::geometry::shard_geometry;
use sonic_share::transfer::metadata::safe_file_name;
use sonic_share::transfer::packet::{decode_packet, encode_end, encode_inline, Packet};
use sonic_share::transfer::receiver::TransferReceiver;
use sonic_share::transfer::sender::{build_transfer, build_transfer_at};
use sonic_share::transfer::types::{Compression, TransferEvent, TransferMetadata};

#[test]
fn reconstructs_binary_file_with_four_missing_shards_per_group() {
    let data: Vec<u8> = (0..5000u32).map(|value| (value * 31) as u8).collect();
    let plan = build_transfer("photo.bin", "application/octet-stream", &data, false)
        .expect("build transfer");
    let mut receiver = TransferReceiver::new();
    let mut completed = None;

    for packet in plan.packets {
        if let Ok(Packet::Shard { group, index, .. }) = decode_packet(&packet) {
            if index < 4 && group % 2 == 0 {
                continue;
            }
        }
        for event in receiver.ingest(&packet) {
            if let TransferEvent::Completed { data, .. } = event {
                completed = Some(data);
            }
        }
    }
    assert_eq!(completed, Some(data));
}

#[test]
fn ignores_duplicates_and_restores_compressed_unicode_text() {
    let text = "Привет через акустический канал. ".repeat(200).into_bytes();
    let plan = build_transfer("message.txt", "text/plain; charset=utf-8", &text, true)
        .expect("build transfer");
    assert_eq!(plan.metadata.compression, Compression::Zstd);
    let mut receiver = TransferReceiver::new();
    let mut completed = None;
    for packet in plan.packets {
        let duplicate = packet.clone();
        for event in receiver
            .ingest(&packet)
            .into_iter()
            .chain(receiver.ingest(&duplicate))
        {
            if let TransferEvent::Completed { data, .. } = event {
                completed = Some(data);
            }
        }
    }
    assert_eq!(completed, Some(text));
}

#[test]
fn medium_transfer_uses_adaptive_geometry_and_survives_two_losses() {
    let data: Vec<u8> = (0..300u16).map(|value| (value * 73 + 19) as u8).collect();
    let plan = build_transfer("medium.bin", "application/octet-stream", &data, false)
        .expect("build transfer");
    assert_eq!(shard_geometry(plan.metadata.encoded_size), (2, 2));
    let mut receiver = TransferReceiver::new();
    let mut completed = None;
    for packet in plan.packets {
        if let Ok(Packet::Shard { index, .. }) = decode_packet(&packet) {
            if index < 2 {
                continue;
            }
        }
        for event in receiver.ingest(&packet) {
            if let TransferEvent::Completed { data, .. } = event {
                completed = Some(data);
            }
        }
    }
    assert_eq!(completed, Some(data));
}

#[test]
fn sanitizes_received_file_names() {
    assert_eq!(safe_file_name("../../secret.txt"), "secret.txt");
    assert_eq!(safe_file_name(".."), "received.bin");
}

#[test]
fn tiny_message_travels_in_one_inline_packet() {
    let plan = build_transfer("hi.txt", "text/plain", b"hello", true).expect("build transfer");
    assert_eq!(plan.packets.len(), 1);
    assert_eq!(plan.metadata.group_count, 0);
    assert_eq!(plan.metadata.compression, Compression::Raw);
    let mut receiver = TransferReceiver::new();
    let events = receiver.ingest(&plan.packets[0]);
    assert_eq!(events.len(), 2);
    match &events[0] {
        TransferEvent::Started(metadata) => assert_eq!(metadata.name, "hi.txt"),
        other => panic!("unexpected event {other:?}"),
    }
    match &events[1] {
        TransferEvent::Completed { data, .. } => assert_eq!(data, b"hello"),
        other => panic!("unexpected event {other:?}"),
    }
}

#[test]
fn every_packet_fits_and_parses() {
    let data: Vec<u8> = (0..3000u32).map(|value| (value * 7) as u8).collect();
    let plan = build_transfer("file.bin", "application/octet-stream", &data, false)
        .expect("build transfer");
    // 3000 bytes: 8 data shards of 192 bytes per group, so 2 groups of 12 shards.
    assert_eq!(plan.metadata.group_count, 2);
    assert_eq!(plan.packets.len(), 2 + 2 * 12 + 1);
    for packet in &plan.packets {
        assert!(packet.len() <= 255);
        assert!(decode_packet(packet).is_ok());
    }
}

#[test]
fn same_clock_reading_gives_same_plan() {
    let data: Vec<u8> = (0..1000u32).map(|value| (value * 13) as u8).collect();
    let first = build_transfer_at("a.bin", "application/octet-stream", &data, false, 42).unwrap();
    let second = build_transfer_at("a.bin", "application/octet-stream", &data, false, 42).unwrap();
    assert_eq!(first.metadata.id, second.metadata.id);
    assert_eq!(first.packets, second.packets);
}

#[test]
fn long_names_and_types_are_cut() {
    let name = "n".repeat(300);
    let content_type = "c".repeat(80);
    let plan = build_transfer(&name, &content_type, b"x", false).expect("build transfer");
    assert_eq!(plan.metadata.name.len(), 96);
    assert_eq!(plan.metadata.content_type.len(), 52);
    let wide = "ü".repeat(60);
    let plan = build_transfer(&wide, "text/plain", b"x", false).expect("build transfer");
    assert_eq!(plan.metadata.name, "ü".repeat(48));
}

#[test]
fn repeated_manifest_reports_nothing() {
    let data: Vec<u8> = (0..1000u32).map(|value| (value * 3) as u8).collect();
    let plan = build_transfer("a.bin", "application/octet-stream", &data, false).unwrap();
    let mut receiver = TransferReceiver::new();
    let first = receiver.ingest(&plan.packets[0]);
    assert_eq!(first.len(), 1);
    assert!(matches!(first[0], TransferEvent::Started(_)));
    assert!(receiver.ingest(&plan.packets[1]).is_empty());
}

#[test]
fn noise_is_ignored() {
    let mut receiver = TransferReceiver::new();
    assert!(receiver.ingest(b"not a packet at all").is_empty());
    assert!(receiver.ingest(&[]).is_empty());
}

#[test]
fn end_with_other_digest_fails_transfer() {
    let data: Vec<u8> = (0..1000u32).map(|value| (value * 5) as u8).collect();
    let plan = build_transfer("a.bin", "application/octet-stream", &data, false).unwrap();
    let mut receiver = TransferReceiver::new();
    receiver.ingest(&plan.packets[0]);
    let mut other = sonic_share::transfer::types::clone_metadata(&plan.metadata);
    other.sha256[0] ^= 1;
    let end = encode_end(&other);
    let events = receiver.ingest(&end);
    assert_eq!(events.len(), 1);
    match &events[0] {
        TransferEvent::Failed { id, reason } => {
            assert_eq!(*id, plan.metadata.id);
            assert_eq!(reason, "end digest does not match manifest");
        }
        other => panic!("unexpected event {other:?}"),
    }
}

#[test]
fn shards_before_manifest_wait_for_it() {
    let data: Vec<u8> = (0..2000u32).map(|value| (value * 11) as u8).collect();
    let plan = build_transfer("late.bin", "application/octet-stream", &data, false).unwrap();
    let mut receiver = TransferReceiver::new();
    let mut completed = None;
    // Shards first, manifests last.
    let mut ordered: Vec<&Vec<u8>> = plan.packets[2..].iter().collect();
    ordered.push(&plan.packets[0]);
    for packet in ordered {
        for event in receiver.ingest(packet) {
            if let TransferEvent::Completed { data, .. } = event {
                completed = Some(data);
            }
        }
    }
    assert_eq!(completed, Some(data));
}

fn inline_metadata(compression: Compression, size: u64) -> TransferMetadata {
    TransferMetadata {
        id: 77,
        name: "note.txt".to_owned(),
        content_type: "text/plain".to_owned(),
        original_size: size,
        encoded_size: size,
        sha256: [0u8; 32],
        compression,
        group_count: 0,
    }
}

#[test]
fn inline_content_with_wrong_digest_fails_verification() {
    let encoded = b"hello".to_vec();
    let packet = encode_inline(&inline_metadata(Compression::Raw, 5), &encoded).unwrap();
    let events = TransferReceiver::new().ingest(&packet);
    assert_eq!(events.len(), 1);
    match &events[0] {
        TransferEvent::Failed { id, reason } => {
            assert_eq!(*id, 77);
            assert_eq!(reason, "SHA-256 verification failed");
        }
        other => panic!("unexpected event {other:?}"),
    }
}

#[test]
fn inline_content_that_is_no_zstd_stream_fails_decompression() {
    let encoded = b"plainly not zstd".to_vec();
    let packet = encode_inline(&inline_metadata(Compression::Zstd, 16), &encoded).unwrap();
    let events = TransferReceiver::new().ingest(&packet);
    assert_eq!(events.len(), 1);
    match &events[0] {
        TransferEvent::Failed { id, reason } => {
            assert_eq!(*id, 77);
            assert!(reason.starts_with("zstd decompression failed: "));
        }
        other => panic!("unexpected event {other:?}"),
    }
}

fn end_packet_bytes() -> Vec<u8> {
    [b"ASND".as_slice(), &[1u8, 3u8], &7u64.to_le_bytes(), &[0xABu8; 32]].concat()
}

fn malformed_reason(data: &[u8]) -> Option<&'static str> {
    match decode_packet(data) {
        Err(sonic_share::transfer::types::TransferError::Malformed(reason)) => Some(reason),
        _ => None,
    }
}

#[test]
fn packet_with_trailing_byte_is_refused_for_trailing_bytes() {
    let mut data = end_packet_bytes();
    assert!(matches!(decode_packet(&data), Ok(Packet::End { id: 7, .. })));
    data.push(0);
    assert_eq!(malformed_reason(&data), Some("trailing bytes"));
}

#[test]
fn packet_header_errors_name_their_cause() {
    let good = end_packet_bytes();
    let mut bad_magic = good.clone();
    bad_magic[0] = b'X';
    assert_eq!(malformed_reason(&bad_magic), Some("bad magic"));
    let mut bad_version = good.clone();
    bad_version[4] = 2;
    assert_eq!(malformed_reason(&bad_version), Some("unsupported version"));
    let mut bad_kind = good.clone();
    bad_kind[5] = 9;
    assert_eq!(malformed_reason(&bad_kind), Some("unknown packet type"));
    assert_eq!(malformed_reason(&good[..20]), Some("truncated packet"));
    assert_eq!(malformed_reason(&good[..3]), Some("truncated packet"));
}

#[test]
fn malformed_error_message_carries_its_reason() {
    let error = sonic_share::transfer::types::TransferError::Malformed("bad magic");
    assert_eq!(error.message(), "malformed transfer packet: bad magic");
}

#[test]
fn no_strict_prefix_of_a_packet_decodes() {
    let data: Vec<u8> = (0..3000u32).map(|value| (value * 3) as u8).collect();
    let plan = build_transfer("prefix.bin", "application/octet-stream", &data, false).unwrap();
    for packet in plan.packets.iter().take(4) {
        assert!(decode_packet(packet).is_ok());
        for k in 0..packet.len() {
            assert!(malformed_reason(&packet[..k]).is_some());
        }
    }
    let end = encode_end(&plan.metadata);
    for k in 0..end.len() {
        assert_eq!(malformed_reason(&end[..k]), Some("truncated packet"));
    }
}

#[test]
fn every_packet_received_twice_delivers_once() {
    let data: Vec<u8> = (0..20000u32).map(|value| (value * 17 + 3) as u8).collect();
    let plan = build_transfer("twice.bin", "application/octet-stream", &data, false).unwrap();
    let mut receiver = TransferReceiver::new();
    let mut completed = 0;
    let mut started = 0;
    for packet in &plan.packets {
        for _ in 0..2 {
            for event in receiver.ingest(packet) {
                match event {
                    TransferEvent::Completed { data: got, .. } => {
                        assert_eq!(got, data);
                        completed += 1;
                    }
                    TransferEvent::Started(_) => started += 1,
                    TransferEvent::Failed { .. } => panic!("unexpected failure"),
                    TransferEvent::Progress { completed_groups, total_groups, .. } => {
                        assert!(1 <= completed_groups && completed_groups <= total_groups);
                    }
                }
            }
        }
    }
    assert_eq!(completed, 1);
    let expected_starts = if plan.metadata.group_count % 8 == 0 { 2 } else { 1 };
    assert_eq!(started, expected_starts);
}
