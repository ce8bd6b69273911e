use sonic_share::cli::{
    describe_event, describe_saved, parse_lane, parse_send_args, parse_u8_text, text_input,
    ArgsError, EventOutcome, Line, OutputStyle, SendCommand, SendOptions,
};
use sonic_share::transfer::types::{Compression, TransferEvent, TransferMetadata};
use sonic_share::hybrid::PacketPhy;
use sonic_share::ofdm::{known_payload, OfdmModulation};
use sonic_share::protocol::PhyMode;
use sonic_share::transfer::sender::build_transfer;

fn args(list: &[&str]) -> Vec<String> {
    list.iter().map(|s| s.to_string()).collect()
}

fn run(list: &[&str]) -> SendOptions {
    match parse_send_args(&args(list)) {
        Ok(SendCommand::Run(options)) => options,
        Ok(SendCommand::Help) => panic!("unexpected help"),
        Err(_) => panic!("unexpected error"),
    }
}

#[test]
fn send_args_default_to_playing_compressed_ofdm() {
    let options = run(&[]);
    assert!(options.positional.is_empty());
    assert!(options.play);
    assert!(options.compress);
    assert!(!options.robust && !options.fsk && !options.qam16);
    assert_eq!(options.lane, 0);
    assert_eq!(options.wav_output, None);
    assert_eq!(options.mode_label(), "OFDM safe");
}

#[test]
fn send_args_read_flags_values_and_positionals() {
    let options = run(&[
        "text", "--lane", "1", "hello", "--name", "note.txt", "-o", "out.wav", "--no-play",
        "--qam16", "world", "--content-type", "text/markdown", "--no-compress",
    ]);
    assert_eq!(options.positional, args(&["text", "hello", "world"]));
    assert_eq!(options.lane, 1);
    assert_eq!(options.name.as_deref(), Some("note.txt"));
    assert_eq!(options.wav_output.as_deref(), Some("out.wav"));
    assert_eq!(options.content_type.as_deref(), Some("text/markdown"));
    assert!(!options.play);
    assert!(!options.compress);
    assert!(options.qam16);
    assert_eq!(options.mode_label(), "OFDM fast");
    assert_eq!(options.ofdm_profile().modulation(), OfdmModulation::Qam16);
    assert_eq!(options.ofdm_profile().lane(), 1);
    assert_eq!(options.profile().mode(), PhyMode::Fast);
}

#[test]
fn send_args_refuse_bad_lanes_and_missing_values() {
    assert!(matches!(parse_send_args(&args(&["--lane", "2"])), Err(ArgsError::BadLane)));
    assert!(matches!(parse_send_args(&args(&["--lane", "x"])), Err(ArgsError::BadLane)));
    match parse_send_args(&args(&["hello", "--lane"])) {
        Err(ArgsError::MissingValue(flag)) => assert_eq!(flag, "--lane"),
        _ => panic!("expected a missing value"),
    }
    match parse_send_args(&args(&["--output"])) {
        Err(ArgsError::MissingValue(flag)) => assert_eq!(flag, "--output"),
        _ => panic!("expected a missing value"),
    }
}

#[test]
fn send_args_allow_one_modulation_flag() {
    assert!(matches!(parse_send_args(&args(&["--robust", "--fsk"])), Err(ArgsError::Exclusive)));
    assert!(matches!(parse_send_args(&args(&["--fsk", "--qam16"])), Err(ArgsError::Exclusive)));
    let robust = run(&["--robust"]);
    assert_eq!(robust.mode_label(), "FSK Robust");
    assert_eq!(robust.profile().mode(), PhyMode::Robust);
    assert_eq!(run(&["--fsk"]).mode_label(), "FSK Fast");
}

#[test]
fn send_args_help_stops_reading() {
    assert!(matches!(parse_send_args(&args(&["-h"])), Ok(SendCommand::Help)));
    assert!(matches!(
        parse_send_args(&args(&["--help", "--lane", "9", "--robust", "--fsk"])),
        Ok(SendCommand::Help)
    ));
}

#[test]
fn u8_text_reads_like_std() {
    for text in ["0", "7", "+7", "007", "255", "256", "", "+", "-1", " 7", "7 ", "1000", "+0"] {
        assert_eq!(parse_u8_text(&text.to_string()), text.parse::<u8>().ok(), "{text}");
    }
    assert_eq!(parse_lane(&"1".to_string()), Some(1));
    assert_eq!(parse_lane(&"+0".to_string()), Some(0));
    assert_eq!(parse_lane(&"2".to_string()), None);
}

#[test]
fn text_input_defaults_name_and_type() {
    let options = run(&[]);
    let (name, content_type, bytes) = text_input(&options, "héllo".to_string());
    assert_eq!(name, "message.txt");
    assert_eq!(content_type, "text/plain; charset=utf-8");
    assert_eq!(bytes, "héllo".as_bytes());
    let named = run(&["--name", "a.md", "--content-type", "text/markdown"]);
    let (name, content_type, _) = text_input(&named, String::new());
    assert_eq!(name, "a.md");
    assert_eq!(content_type, "text/markdown");
}

#[test]
fn send_routes_follow_the_mode() {
    let plan = build_transfer("big.bin", "application/octet-stream", &[7u8; 4000], false).unwrap();
    let fsk = run(&["--fsk"]).routes(&plan.packets);
    assert_eq!(fsk.len(), plan.packets.len());
    assert!(fsk.iter().all(|route| *route == PacketPhy::Fsk));
    let hybrid = run(&[]).routes(&plan.packets);
    assert_eq!(hybrid.len(), plan.packets.len());
    assert!(hybrid.iter().any(|route| *route == PacketPhy::Ofdm));
}

#[test]
fn probe_payload_is_the_known_pattern() {
    let payload = known_payload();
    assert_eq!(payload.len(), 200);
    assert_eq!(payload[0], 11);
    assert_eq!(payload[1], 48);
    assert_eq!(payload[7], (7 * 37 + 11) as u8);
    assert_eq!(payload[199], (199usize * 37 + 11) as u8);
}

fn metadata(id: u64, name: &str, content_type: &str, size: u64, groups: u32) -> TransferMetadata {
    TransferMetadata {
        id,
        name: name.to_owned(),
        content_type: content_type.to_owned(),
        original_size: size,
        encoded_size: size,
        sha256: [0; 32],
        compression: Compression::Raw,
        group_count: groups,
    }
}

fn printed(outcome: EventOutcome) -> (Vec<(bool, String)>, bool) {
    match outcome {
        EventOutcome::Print(lines, counts) => (
            lines
                .into_iter()
                .map(|line| match line {
                    Line::Stdout(text) => (false, text),
                    Line::Stderr(text) => (true, text),
                })
                .collect(),
            counts,
        ),
        EventOutcome::Save(..) => panic!("unexpected save"),
    }
}

#[test]
fn chat_message_is_completed_without_creating_output_directory() {
    let event = TransferEvent::Completed {
        metadata: metadata(7, "chat-message.txt", "text/x-sonic-chat; charset=utf-8", 5, 1),
        data: b"hello".to_vec(),
    };
    let (lines, counts) = printed(describe_event(event, OutputStyle::Decode));
    assert!(counts);
    assert_eq!(lines, vec![(false, "chat 0000000000000007 >> hello".to_owned())]);
}

#[test]
fn receive_lines_follow_the_output_style() {
    let started = metadata(0x1f, "a.bin", "application/octet-stream", 300, 2);
    let (listen, _) = printed(describe_event(TransferEvent::Started(started), OutputStyle::Listen));
    assert_eq!(
        listen[0].1,
        "transfer 000000000000001f: 'a.bin' (application/octet-stream), 300 bytes, 2 groups"
    );
    let started = metadata(0x1f, "a.bin", "application/octet-stream", 300, 2);
    let (decode, counts) = printed(describe_event(TransferEvent::Started(started), OutputStyle::Decode));
    assert_eq!(decode[0].1, "transfer 000000000000001f: 'a.bin' (application/octet-stream), 300 bytes");
    assert!(!counts);
    let progress = || TransferEvent::Progress { id: 2, completed_groups: 1, total_groups: 3 };
    assert_eq!(
        printed(describe_event(progress(), OutputStyle::Listen)).0[0].1,
        "transfer 0000000000000002: group 1/3 reconstructed"
    );
    assert_eq!(
        printed(describe_event(progress(), OutputStyle::Decode)).0[0].1,
        "transfer 0000000000000002: 1/3 groups"
    );
    let failed = TransferEvent::Failed { id: 3, reason: "SHA-256 verification failed".to_owned() };
    assert_eq!(
        printed(describe_event(failed, OutputStyle::Listen)).0,
        vec![(true, "transfer 0000000000000003 failed: SHA-256 verification failed".to_owned())]
    );
    let bad_chat = TransferEvent::Completed {
        metadata: metadata(4, "c.txt", "text/x-sonic-chat", 2, 0),
        data: vec![0xff, 0xfe],
    };
    let (lines, counts) = printed(describe_event(bad_chat, OutputStyle::Listen));
    assert!(!counts);
    assert_eq!(lines, vec![(true, "chat 0000000000000004 failed: message is not valid UTF-8".to_owned())]);
}

#[test]
fn completed_files_are_saved_then_described() {
    let file = TransferEvent::Completed {
        metadata: metadata(5, "notes.txt", "text/plain", 2, 1),
        data: b"hi".to_vec(),
    };
    let (saved_metadata, data) = match describe_event(file, OutputStyle::Listen) {
        EventOutcome::Save(m, d) => (m, d),
        EventOutcome::Print(..) => panic!("expected a save"),
    };
    assert_eq!(saved_metadata.name, "notes.txt");
    let lines: Vec<(bool, String)> = describe_saved(&saved_metadata, &data, "received/notes.txt", OutputStyle::Listen)
        .into_iter()
        .map(|line| match line {
            Line::Stdout(text) => (false, text),
            Line::Stderr(text) => (true, text),
        })
        .collect();
    assert_eq!(
        lines,
        vec![
            (false, "received 0000000000000005: 'text/plain' verified and saved to 'received/notes.txt'".to_owned()),
            (false, ">> hi".to_owned()),
        ]
    );
    let binary = metadata(6, "x.bin", "text/plain", 2, 1);
    let warn = describe_saved(&binary, &[0xff, 0xff], "received/x.bin", OutputStyle::Listen);
    assert!(matches!(warn.last(), Some(Line::Stderr(text)) if text == "warning: declared text is not valid UTF-8"));
    let quiet = describe_saved(&binary, &[0xff, 0xff], "received/x.bin", OutputStyle::Decode);
    assert_eq!(quiet.len(), 1);
    assert!(matches!(quiet.first(), Some(Line::Stdout(text)) if text == "saved verified file: 'received/x.bin'"));
}
