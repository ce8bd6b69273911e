use sonic_share::app_state::{
    classify_transfer_event, App, AppEvent, ChatMessage, Intent, Key, Mode, ReceivedAction,
};
use sonic_share::transfer::types::{Compression, TransferEvent, TransferMetadata};

#[test]
fn editing_and_navigation_produce_expected_intents() {
    let mut app = App::default();
    for character in "/tmp/a.txt".chars() {
        app.handle_key(Key::Char(character));
    }
    assert_eq!(
        app.handle_key(Key::Enter),
        Some(Intent::SendFile("/tmp/a.txt".to_owned()))
    );
    app.handle_key(Key::Tab);
    assert_eq!(app.mode, Mode::Receive);
    assert_eq!(app.handle_key(Key::Enter), Some(Intent::StartReceive));
}

#[test]
fn chat_is_added_to_history_without_a_file_intent() {
    let mut app = App {
        mode: Mode::Chat,
        input: "hello".to_owned(),
        ..App::default()
    };
    assert_eq!(
        app.handle_key(Key::Enter),
        Some(Intent::SendChat("hello".to_owned()))
    );
    assert_eq!(app.messages[0].text, "hello");
}

#[test]
fn chat_listener_can_be_toggled_outside_input_mode() {
    let mut app = App {
        mode: Mode::Chat,
        editing: false,
        ..App::default()
    };
    assert_eq!(app.handle_key(Key::Char('r')), Some(Intent::StartReceive));
    app.receiving = true;
    assert_eq!(app.handle_key(Key::Char('r')), Some(Intent::StopReceive));
}

#[test]
fn tab_cycles_through_modes() {
    let mut app = App::default();
    app.handle_key(Key::Tab);
    assert_eq!((app.mode, app.editing), (Mode::Receive, false));
    app.handle_key(Key::Tab);
    assert_eq!((app.mode, app.editing), (Mode::Chat, true));
    app.handle_key(Key::Tab);
    assert_eq!((app.mode, app.editing), (Mode::Send, true));
}

#[test]
fn escape_leaves_editing_then_quits() {
    let mut app = App::default();
    assert_eq!(app.handle_key(Key::Esc), None);
    assert!(!app.editing);
    assert_eq!(app.handle_key(Key::Char('2')), None);
    assert_eq!(app.mode, Mode::Receive);
    assert_eq!(app.handle_key(Key::Char('q')), Some(Intent::Quit));
    assert_eq!(app.handle_key(Key::Esc), Some(Intent::Quit));
}

#[test]
fn blank_input_is_refused_and_logged() {
    let mut app = App::default();
    for character in "   ".chars() {
        app.handle_key(Key::Char(character));
    }
    assert_eq!(app.handle_key(Key::Enter), None);
    assert_eq!(app.logs.back().map(String::as_str), Some("Input is empty"));
    assert_eq!(app.input, "   ");
}

#[test]
fn input_is_trimmed_and_edited() {
    let mut app = App::default();
    for character in "  ab\u{7}c ".chars() {
        app.handle_key(Key::Char(character));
    }
    assert_eq!(app.input, "  abc ");
    app.handle_key(Key::Backspace);
    app.handle_key(Key::Backspace);
    assert_eq!(app.input, "  ab");
    assert_eq!(app.handle_key(Key::Enter), Some(Intent::SendFile("ab".to_owned())));
    assert_eq!(app.input, "");
    assert_eq!(
        app.messages,
        Vec::<ChatMessage>::new()
    );
}

#[test]
fn log_keeps_the_last_hundred_lines() {
    let mut app = App::default();
    for index in 0..150 {
        app.log(format!("line {index}"));
    }
    assert_eq!(app.logs.len(), 100);
    assert_eq!(app.logs.front().map(String::as_str), Some("line 50"));
    assert_eq!(app.logs.back().map(String::as_str), Some("line 149"));
}

#[test]
fn runtime_reports_update_state_and_log() {
    let mut app = App::default();
    app.update(AppEvent::RxStarted { device: "mic".to_owned(), sample_rate: 48000 });
    assert!(app.receiving);
    assert_eq!(app.input_device.as_deref(), Some("mic"));
    assert_eq!(app.logs.back().map(String::as_str), Some("Listening on mic at 48000 Hz"));
    app.update(AppEvent::TransferStarted { name: "a.bin".to_owned(), size: 1234 });
    assert_eq!(app.transfer_progress, Some((0, 0)));
    assert_eq!(app.logs.back().map(String::as_str), Some("Receiving a.bin (1234 bytes)"));
    app.update(AppEvent::TransferProgress { completed: 2, total: 5 });
    assert_eq!(app.transfer_progress, Some((2, 5)));
    app.update(AppEvent::FileReceived("received/a.bin".to_owned()));
    assert_eq!(app.transfer_progress, None);
    assert_eq!(app.received_path.as_deref(), Some("received/a.bin"));
    assert_eq!(app.logs.back().map(String::as_str), Some("Saved received/a.bin"));
    app.update(AppEvent::Error("boom".to_owned()));
    assert_eq!(app.logs.back().map(String::as_str), Some("Error: boom"));
    app.update(AppEvent::ChatReceived("hi".to_owned()));
    assert_eq!(app.messages.last(), Some(&ChatMessage { incoming: true, text: "hi".to_owned() }));
    app.update(AppEvent::TxStarted);
    assert_eq!(app.tx_progress, Some((0, 0)));
    app.update(AppEvent::TxProgress { current: 3, total: 9 });
    assert_eq!(app.tx_progress, Some((3, 9)));
    app.update(AppEvent::TxFinished);
    assert_eq!(app.tx_progress, None);
    assert_eq!(app.logs.back().map(String::as_str), Some("Acoustic transmission stopped"));
    app.update(AppEvent::RxStopped);
    assert!(!app.receiving);
    assert_eq!(app.logs.back().map(String::as_str), Some("Listening stopped"));
}

#[test]
fn status_reports_fill_the_bounded_log() {
    let mut app = App::default();
    for index in 0..150 {
        app.update(AppEvent::Status(format!("line {index}")));
    }
    assert_eq!(app.logs.len(), 100);
    assert_eq!(app.logs.front().map(String::as_str), Some("line 50"));
    assert_eq!(app.logs.back().map(String::as_str), Some("line 149"));
}

fn chat_metadata(id: u64, content_type: &str) -> TransferMetadata {
    TransferMetadata {
        id,
        name: "chat-message.txt".to_owned(),
        content_type: content_type.to_owned(),
        original_size: 2,
        encoded_size: 2,
        sha256: [0; 32],
        compression: Compression::Raw,
        group_count: 0,
    }
}

#[test]
fn received_chat_is_classified_without_persistence() {
    let metadata = chat_metadata(9, "text/x-sonic-chat; charset=utf-8");
    let action = classify_transfer_event(TransferEvent::Completed {
        metadata,
        data: b"hi".to_vec(),
    });
    assert!(matches!(action, ReceivedAction::Report(AppEvent::ChatReceived(ref text)) if text == "hi"));
}

#[test]
fn receiver_events_become_reports_or_saves() {
    let started = classify_transfer_event(TransferEvent::Started(chat_metadata(1, "text/plain")));
    assert!(matches!(
        started,
        ReceivedAction::Report(AppEvent::TransferStarted { ref name, size: 2 }) if name == "chat-message.txt"
    ));
    let progress = classify_transfer_event(TransferEvent::Progress {
        id: 1,
        completed_groups: 3,
        total_groups: 4,
    });
    assert!(matches!(
        progress,
        ReceivedAction::Report(AppEvent::TransferProgress { completed: 3, total: 4 })
    ));
    let file = classify_transfer_event(TransferEvent::Completed {
        metadata: chat_metadata(2, "application/octet-stream"),
        data: vec![1, 2],
    });
    assert!(matches!(file, ReceivedAction::Save(ref m, ref d) if m.id == 2 && d == &vec![1u8, 2]));
    let bad_chat = classify_transfer_event(TransferEvent::Completed {
        metadata: chat_metadata(3, "TEXT/X-SONIC-CHAT"),
        data: vec![0xff, 0xfe],
    });
    assert!(matches!(
        bad_chat,
        ReceivedAction::Report(AppEvent::Error(ref m)) if m == "received chat is not valid UTF-8"
    ));
    let failed = classify_transfer_event(TransferEvent::Failed {
        id: 0xabc,
        reason: "SHA-256 verification failed".to_owned(),
    });
    assert!(matches!(
        failed,
        ReceivedAction::Report(AppEvent::Error(ref m))
            if m == "transfer 0000000000000abc failed: SHA-256 verification failed"
    ));
}
