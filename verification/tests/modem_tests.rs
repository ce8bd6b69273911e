use sonic_share::frame::{
    encoded_sample_count, encoded_sample_count_with_profile, frame_bytes, frame_bytes_with_profile,
    frame_symbols, parse_frame, FrameAttempt,
};
use sonic_share::hybrid::{hybrid_packet_routes, hybrid_sample_count, PacketPhy};
use sonic_share::mobile::{failed_event, hex_id, is_text};
use sonic_share::ofdm::{
    bits_to_bytes, body_carrier_bits, bytes_to_bits, crc16, decode_body_bits,
    encoded_ofdm_sample_count, header_bit_index, header_bytes, ofdm_expected_body_bits,
    parse_header, OfdmModulation, OfdmProfile,
};
use sonic_share::protocol::{crc8, majority, symbol_len, tone_len, AcousticProfile, PhyMode};
use sonic_share::transfer::packet::{classify_packet, encode_handshake_req, TransferPacketKind};
use sonic_share::transfer::sender::build_transfer;

#[test]
fn crc_check_values() {
    assert_eq!(crc8(b""), 0);
    assert_eq!(crc8(b"123456789"), 0xF4);
    assert_eq!(crc16(b"123456789"), 0x29B1);
    assert_eq!(crc16(b""), 0xFFFF);
}

#[test]
fn majority_needs_more_than_half() {
    assert_eq!(majority(&[1, 2, 1, 1, 3]), Some(1));
    assert_eq!(majority(&[1, 2, 1, 2, 3]), None);
    assert_eq!(majority(&[]), None);
    assert_eq!(majority(&[9]), Some(9));
}

#[test]
fn profile_timings() {
    let fast = AcousticProfile::fast(1);
    let robust = AcousticProfile::robust(0);
    assert_eq!(fast.mode(), PhyMode::Fast);
    assert_eq!(fast.lane(), 1);
    assert_eq!(fast.symbol_samples(), 1024);
    assert_eq!(robust.symbol_samples(), 2048);
    assert_eq!(fast.frame_symbols_per_byte(), 1);
    assert_eq!(robust.frame_symbols_per_byte(), 2);
    assert_eq!(fast.detector_tone_count(), 33);
    assert_eq!(robust.detector_tone_count(), 17);
    assert_eq!(symbol_len(48_000), 1024);
    assert_eq!(tone_len(48_000), 512);
    assert_eq!(symbol_len(44_100), 941);
    assert_eq!(tone_len(44_100), 470);
    assert_eq!(tone_len(0), 1);
}

#[test]
fn frame_parses_back_whatever_follows() {
    let payload = b"hello over sound".to_vec();
    let mut bytes = frame_bytes(&payload);
    let frame_len = bytes.len();
    match parse_frame(&bytes) {
        FrameAttempt::Decoded(decoded, used) => {
            assert_eq!(decoded, payload);
            assert_eq!(used, frame_len);
        }
        _ => panic!("frame did not parse"),
    }
    bytes.extend_from_slice(&[1, 2, 3]);
    assert!(matches!(parse_frame(&bytes), FrameAttempt::Decoded(_, used) if used == frame_len));
}

#[test]
fn frame_needs_all_its_bytes() {
    let bytes = frame_bytes(b"abc");
    assert!(matches!(parse_frame(&bytes[..bytes.len() - 1]), FrameAttempt::NeedMore));
    assert!(matches!(parse_frame(&bytes[..3]), FrameAttempt::NeedMore));
    assert!(matches!(parse_frame(&[0u8; 40]), FrameAttempt::Invalid));
}

#[test]
fn frame_survives_noisy_repeats_and_byte_errors() {
    let mut bytes = frame_bytes_with_profile(b"data over sound", AcousticProfile::robust(0));
    // Two of five sync bytes and two of five length bytes are wrong.
    bytes[0] ^= 0xFF;
    bytes[3] ^= 0x11;
    bytes[5] ^= 0x01;
    bytes[9] ^= 0x80;
    // Some protected bytes are wrong too.
    for index in [12usize, 20, 30] {
        bytes[index] ^= 0x5A;
    }
    assert!(matches!(parse_frame(&bytes), FrameAttempt::Decoded(p, _) if p == b"data over sound"));
}

#[test]
fn frame_symbols_follow_the_profile() {
    let bytes = frame_bytes(b"x");
    let dual = frame_symbols(b"x", AcousticProfile::fast(0));
    let single = frame_symbols(b"x", AcousticProfile::robust(0));
    assert_eq!(dual.len(), bytes.len());
    assert_eq!(single.len(), 2 * bytes.len());
    assert_eq!(dual[0].first, 0xA);
    assert_eq!(dual[0].second, Some(0x5));
    assert_eq!(single[0].first, 0xA);
    assert_eq!(single[1].first, 0x5);
    assert_eq!(single[1].second, None);
}

#[test]
fn sample_counts() {
    assert_eq!(encoded_sample_count(0), (2 + 10 + 5 + 5 + 34) * 1024);
    assert_eq!(
        encoded_sample_count_with_profile(0, AcousticProfile::robust(0)),
        (2 + 16 + (5 + 5 + 34) * 2) * 2048
    );
    assert_eq!(encoded_ofdm_sample_count(0, OfdmProfile::qpsk(0)), 256 + (9 + 17) * 1408);
    assert_eq!(encoded_ofdm_sample_count(0, OfdmProfile::qam16(0)), 256 + (9 + 5) * 1408);
    assert_eq!(
        hybrid_sample_count(10, PacketPhy::Fsk, AcousticProfile::fast(0), OfdmProfile::qpsk(0)),
        encoded_sample_count(10)
    );
    assert_eq!(
        hybrid_sample_count(10, PacketPhy::Ofdm, AcousticProfile::fast(0), OfdmProfile::qpsk(0)),
        encoded_ofdm_sample_count(10, OfdmProfile::qpsk(0))
    );
}

#[test]
fn ofdm_header_is_read_back_only_on_its_lane() {
    let header = header_bytes(211, OfdmProfile::qpsk(1));
    assert_eq!(&header[..2], b"OF");
    assert_eq!(header[6..], [0xA5, 0x5A]);
    assert_eq!(parse_header(&header, OfdmProfile::qpsk(1)), Some(211));
    assert_eq!(parse_header(&header, OfdmProfile::qpsk(0)), None);
    assert_eq!(parse_header(&header, OfdmProfile::qam16(1)), None);
    let mut broken = header;
    broken[2] ^= 1;
    assert_eq!(parse_header(&broken, OfdmProfile::qpsk(1)), None);
    assert_eq!(OfdmProfile::qam16(1).modulation(), OfdmModulation::Qam16);
}

#[test]
fn bits_pack_back_into_bytes() {
    let bytes = vec![0x80, 0x01, 0xA5];
    let bits = bytes_to_bits(&bytes);
    assert_eq!(bits.len(), 24);
    assert!(bits[0] && !bits[1] && bits[15]);
    assert_eq!(bits_to_bytes(&bits, 3), bytes);
    assert_eq!(bits_to_bytes(&bits, 2), vec![0x80, 0x01]);
    assert_eq!(bits_to_bytes(&[true, true], 5), vec![0xC0]);
}

#[test]
fn ofdm_body_bits_decode_to_the_payload() {
    let payload: Vec<u8> = (0..211u32).map(|value| (value * 73 + 19) as u8).collect();
    let bits = ofdm_expected_body_bits(&payload, OfdmProfile::qpsk(0));
    assert_eq!(decode_body_bits(&bits, payload.len()), Some(payload.clone()));
    let mut flipped = bits.clone();
    for index in 0..10 {
        flipped[index * 8] = !flipped[index * 8];
    }
    assert_eq!(decode_body_bits(&flipped, payload.len()), Some(payload.clone()));
    assert_eq!(decode_body_bits(&bits[..bits.len() - 8], payload.len()), None);
}

#[test]
fn carriers_share_cells_across_the_band() {
    assert_eq!(header_bit_index(0, 0), 0);
    assert_eq!(header_bit_index(0, 17), 1);
    assert_eq!(header_bit_index(4, 3), 3);
    let bits = vec![true, false, true, true];
    let carriers = body_carrier_bits(&bits, OfdmProfile::qam16(0), 2, 0);
    assert_eq!(carriers.len(), 64);
    assert_eq!(carriers[0], (true, false));
    assert_eq!(carriers[32], (true, false));
    assert_eq!(carriers[1], (false, false));
}

#[test]
fn only_inline_packets_use_fsk() {
    let small = build_transfer("hi.txt", "text/plain", b"hi", false).unwrap();
    assert_eq!(hybrid_packet_routes(&small.packets), vec![PacketPhy::Fsk]);
    let data = (0..4096).map(|value| (value * 31) as u8).collect::<Vec<_>>();
    let plan = build_transfer("payload.bin", "application/octet-stream", &data, false).unwrap();
    let routes = hybrid_packet_routes(&plan.packets);
    assert!(routes.iter().all(|route| *route == PacketPhy::Ofdm));
    assert_eq!(classify_packet(&small.packets[0]), Some(TransferPacketKind::Inline));
    assert_eq!(classify_packet(&encode_handshake_req(5)), Some(TransferPacketKind::HandshakeReq));
    assert_eq!(classify_packet(b"nope"), None);
}

#[test]
fn mobile_event_fields() {
    assert_eq!(hex_id(0x1234), "0000000000001234");
    assert_eq!(hex_id(u64::MAX), "ffffffffffffffff");
    assert!(is_text("text/plain"));
    assert!(is_text("application/ld+json"));
    assert!(is_text("image/svg+xml"));
    assert!(!is_text("application/octet-stream"));
    let event = failed_event(255, "boom".to_owned());
    assert_eq!(event.kind, "failed");
    assert_eq!(event.id, "00000000000000ff");
    assert_eq!(event.message.as_deref(), Some("boom"));
}

#[test]
fn tone_bins_follow_the_lane_plan() {
    let fast0 = AcousticProfile::fast(0);
    let fast1 = AcousticProfile::fast(1);
    let robust0 = AcousticProfile::robust(0);
    let robust1 = AcousticProfile::robust(1);
    assert_eq!((fast0.data_bin(0), fast0.data_bin(15), fast0.high_data_bin(15), fast0.marker_bin()), (16, 46, 47, 56));
    assert_eq!((fast1.data_bin(0), fast1.high_data_bin(15), fast1.marker_bin()), (64, 95, 104));
    assert_eq!((robust0.data_bin(0), robust0.data_bin(15), robust0.marker_bin()), (40, 55, 64));
    assert_eq!((robust1.data_bin(0), robust1.marker_bin()), (88, 112));
    for (a, b) in [(fast0, fast1), (robust0, robust1)] {
        let bins = |p: AcousticProfile| {
            let mut all: Vec<usize> = (0..16u8).map(|v| p.data_bin(v)).collect();
            if p.is_dual_tone() {
                all.extend((0..16u8).map(|v| p.high_data_bin(v)));
            }
            all.push(p.marker_bin());
            all
        };
        let first = bins(a);
        assert!(bins(b).iter().all(|bin| !first.contains(bin)));
    }
}

#[test]
fn expected_body_bits_lay_out_payload_then_crc_for_every_profile() {
    let payload: Vec<u8> = (0..60u32).map(|i| (i * 29 + 1) as u8).collect();
    let bits = ofdm_expected_body_bits(&payload, OfdmProfile::qpsk(0));
    assert_eq!(bits, ofdm_expected_body_bits(&payload, OfdmProfile::qam16(1)));
    assert_eq!(bits.len(), 8 * sonic_share::rs::encoded_len(payload.len() + 2));
    let n = payload.len();
    assert_eq!(&bits[..8 * n], &bytes_to_bits(&payload)[..]);
    let check = crc16(&payload).to_le_bytes();
    assert_eq!(&bits[8 * n..8 * n + 16], &bytes_to_bits(&check)[..]);
}
