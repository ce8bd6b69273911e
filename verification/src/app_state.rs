//! The key handling of the terminal front end: modes, the input line, chat
//! history and the bounded log.

use vstd::prelude::*;
use std::collections::VecDeque;
use crate::mobile::{hex_id, hex_id_spec, opt_view};
use crate::transfer::metadata::{is_chat_content_type, is_chat_spec};
use crate::transfer::types::{TransferEvent, TransferMetadata};
use crate::output::{decimal, decimal_spec};
use crate::text::{
    append_chars, append_str, chars_of, is_control, is_control_spec, push_char, string_from_chars,
    string_from_utf8, trim_bounds, trim_spec,
};
use vstd::utf8::{decode_utf8, valid_utf8};

verus! {

/// Longest log kept.
pub const MAX_LOG_LINES: usize = 100;

/// The screen being shown.
#[derive(Debug, Clone, Copy, PartialEq, Eq, Structural)]
pub enum Mode {
    Send,
    Receive,
    Chat,
}

/// The mode after `m` in the Tab order.
pub open spec fn next_mode(m: Mode) -> Mode {
    match m {
        Mode::Send => Mode::Receive,
        Mode::Receive => Mode::Chat,
        Mode::Chat => Mode::Send,
    }
}

impl Mode {
    /// The mode after this one in the Tab order.
    pub fn next(self) -> (res: Mode)
        ensures
            res == next_mode(self),
    {
        match self {
            Mode::Send => Mode::Receive,
            Mode::Receive => Mode::Chat,
            Mode::Chat => Mode::Send,
        }
    }
}

/// A key press.
#[derive(Debug, Clone, Copy, PartialEq, Eq, Structural)]
pub enum Key {
    Char(char),
    Backspace,
    Enter,
    Esc,
    Tab,
}

/// What the front end asks the runtime to do.
#[derive(Debug, PartialEq, Eq)]
pub enum Intent {
    SendFile(String),
    SendChat(String),
    StartReceive,
    StopReceive,
    Quit,
}

/// The meaning of an `Intent`.
pub enum IntentModel {
    SendFile(Seq<char>),
    SendChat(Seq<char>),
    StartReceive,
    StopReceive,
    Quit,
}

impl View for Intent {
    type V = IntentModel;

    open spec fn view(&self) -> IntentModel {
        match self {
            Intent::SendFile(path) => IntentModel::SendFile(path@),
            Intent::SendChat(text) => IntentModel::SendChat(text@),
            Intent::StartReceive => IntentModel::StartReceive,
            Intent::StopReceive => IntentModel::StopReceive,
            Intent::Quit => IntentModel::Quit,
        }
    }
}

/// One line of the chat history.
#[derive(Debug, Clone, PartialEq, Eq)]
pub struct ChatMessage {
    pub incoming: bool,
    pub text: String,
}

/// The state the keys act on.
pub struct App {
    pub mode: Mode,
    pub editing: bool,
    pub input: String,
    pub receiving: bool,
    pub input_device: Option<String>,
    pub transfer_progress: Option<(u32, u32)>,
    pub tx_progress: Option<(usize, usize)>,
    pub received_path: Option<String>,
    pub messages: Vec<ChatMessage>,
    pub logs: VecDeque<String>,
}

/// The meaning of an `App`.
pub struct AppModel {
    pub mode: Mode,
    pub editing: bool,
    pub input: Seq<char>,
    pub receiving: bool,
    pub input_device: Option<Seq<char>>,
    pub transfer_progress: Option<(u32, u32)>,
    pub tx_progress: Option<(usize, usize)>,
    pub received_path: Option<Seq<char>>,
    pub messages: Seq<(bool, Seq<char>)>,
    pub logs: Seq<Seq<char>>,
}

impl View for App {
    type V = AppModel;

    open spec fn view(&self) -> AppModel {
        AppModel {
            mode: self.mode,
            editing: self.editing,
            input: self.input@,
            receiving: self.receiving,
            input_device: opt_view(self.input_device),
            transfer_progress: self.transfer_progress,
            tx_progress: self.tx_progress,
            received_path: opt_view(self.received_path),
            messages: self.messages@.map_values(|m: ChatMessage| (m.incoming, m.text@)),
            logs: self.logs@.map_values(|l: String| l@),
        }
    }
}

/// The log after appending `message`: the oldest line goes when the log
/// holds exactly 100 lines.
pub open spec fn log_spec(logs: Seq<Seq<char>>, message: Seq<char>) -> Seq<Seq<char>> {
    if logs.len() == MAX_LOG_LINES {
        logs.drop_first().push(message)
    } else {
        logs.push(message)
    }
}

/// The log never grows past 100 lines, and its newest line is the one
/// just logged.
pub proof fn lemma_log_bounded(logs: Seq<Seq<char>>, message: Seq<char>)
    requires
        logs.len() <= MAX_LOG_LINES,
    ensures
        log_spec(logs, message).len() <= MAX_LOG_LINES,
        log_spec(logs, message).last() == message,
        logs.len() < MAX_LOG_LINES ==> log_spec(logs, message) == logs.push(message),
{
}

/// The start or stop request that toggles listening.
pub open spec fn toggle_spec(receiving: bool) -> IntentModel {
    if receiving {
        IntentModel::StopReceive
    } else {
        IntentModel::StartReceive
    }
}

/// Submitting the input line: an empty (trimmed) line is refused with a log
/// line; otherwise the line is cleared and, in Send mode, sent as a file
/// path, in Chat mode, recorded and sent as a chat message.
pub open spec fn submit_spec(s: AppModel) -> (AppModel, Option<IntentModel>) {
    let value = trim_spec(s.input);
    if value.len() == 0 {
        (AppModel { logs: log_spec(s.logs, "Input is empty"@), ..s }, None)
    } else {
        let cleared = AppModel { input: Seq::empty(), ..s };
        match s.mode {
            Mode::Send => (cleared, Some(IntentModel::SendFile(value))),
            Mode::Chat => (
                AppModel { messages: s.messages.push((false, value)), ..cleared },
                Some(IntentModel::SendChat(value)),
            ),
            Mode::Receive => (cleared, None),
        }
    }
}

/// What a key does, the first matching rule winning: Tab moves to the next
/// mode (editing except on Receive); Esc leaves editing, or quits outside
/// it, as `q` does; `1`, `2`, `3` pick a mode outside editing; Enter starts
/// editing outside Receive, toggles listening on Receive, submits when
/// editing; `r` toggles listening in Chat outside editing; Backspace and
/// printable characters edit the input line.
pub open spec fn handle_key_spec(s: AppModel, key: Key) -> (AppModel, Option<IntentModel>) {
    match key {
        Key::Tab => {
            let mode = next_mode(s.mode);
            (AppModel { mode, editing: mode != Mode::Receive, ..s }, None)
        },
        Key::Esc if s.editing => (AppModel { editing: false, ..s }, None),
        Key::Esc if !s.editing => (s, Some(IntentModel::Quit)),
        Key::Char(c) if c == 'q' && !s.editing => (s, Some(IntentModel::Quit)),
        Key::Char(c) if (c == '1' || c == '2' || c == '3') && !s.editing => (
            AppModel {
                mode: if c == '1' {
                    Mode::Send
                } else if c == '2' {
                    Mode::Receive
                } else {
                    Mode::Chat
                },
                ..s
            },
            None,
        ),
        Key::Enter if !s.editing && s.mode != Mode::Receive => (AppModel { editing: true, ..s }, None),
        Key::Enter if s.mode == Mode::Receive => (s, Some(toggle_spec(s.receiving))),
        Key::Char(c) if c == 'r' && !s.editing && s.mode == Mode::Chat => (
            s,
            Some(toggle_spec(s.receiving)),
        ),
        Key::Enter => submit_spec(s),
        Key::Backspace if s.editing => (
            AppModel {
                input: if s.input.len() == 0 {
                    s.input
                } else {
                    s.input.drop_last()
                },
                ..s
            },
            None,
        ),
        Key::Char(c) if s.editing && !is_control_spec(c) => (
            AppModel { input: s.input.push(c), ..s },
            None,
        ),
        _ => (s, None),
    }
}

/// Outside editing, the keys `1`, `2` and `3` pick the Send, Receive and
/// Chat modes, whatever the mode before, change nothing else and ask
/// nothing of the runtime.
pub proof fn lemma_mode_keys(s: AppModel)
    requires
        !s.editing,
    ensures
        handle_key_spec(s, Key::Char('1')) == (AppModel { mode: Mode::Send, ..s }, None::<IntentModel>),
        handle_key_spec(s, Key::Char('2')) == (
            AppModel { mode: Mode::Receive, ..s },
            None::<IntentModel>,
        ),
        handle_key_spec(s, Key::Char('3')) == (AppModel { mode: Mode::Chat, ..s }, None::<IntentModel>),
{
}

/// `None` as the model of no intent, `Some` of the intent's model.
pub open spec fn intent_view(i: Option<Intent>) -> Option<IntentModel> {
    match i {
        Some(intent) => Some(intent@),
        None => None,
    }
}

/// The state at start: Send mode, editing, empty input, not listening,
/// no device, no progress, nothing saved, no messages, and the log line
/// "Ready".
pub open spec fn initial_app() -> AppModel {
    AppModel {
        mode: Mode::Send,
        editing: true,
        input: Seq::empty(),
        receiving: false,
        input_device: None,
        transfer_progress: None,
        tx_progress: None,
        received_path: None,
        messages: Seq::empty(),
        logs: seq!["Ready"@],
    }
}

impl Default for App {
    /// The state at start (see `App::new`).
    fn default() -> (res: App)
        ensures
            res@ == initial_app(),
    {
        App::new()
    }
}

/// `chars[start..end]` as a new vector.
fn char_range(chars: &Vec<char>, start: usize, end: usize) -> (res: Vec<char>)
    requires
        start <= end <= chars@.len(),
    ensures
        res@ == chars@.subrange(start as int, end as int),
{
    let mut out: Vec<char> = Vec::new();
    let mut i: usize = start;
    while i < end
        invariant
            start <= i <= end <= chars@.len(),
            out@ == chars@.subrange(start as int, i as int),
        decreases end - i,
    {
        out.push(chars[i]);
        i = i + 1;
        proof {
            assert(out@ =~= chars@.subrange(start as int, i as int));
        }
    }
    out
}

impl App {
    /// The state at start (see `initial_app`).
    pub fn new() -> (res: App)
        ensures
            res@ == initial_app(),
    {
        let mut logs: VecDeque<String> = VecDeque::new();
        logs.push_back("Ready".to_owned());
        let app = App {
            mode: Mode::Send,
            editing: true,
            input: String::new(),
            receiving: false,
            input_device: None,
            transfer_progress: None,
            tx_progress: None,
            received_path: None,
            messages: Vec::new(),
            logs,
        };
        proof {
            assert(app@.messages =~= Seq::<(bool, Seq<char>)>::empty());
            assert(app@.logs =~= seq!["Ready"@]);
            assert(app@.input =~= Seq::<char>::empty());
        }
        app
    }

    /// Appends a line to the log, dropping the oldest at 100 lines.
    pub fn log(&mut self, message: String)
        ensures
            final(self)@ == (AppModel { logs: log_spec(old(self)@.logs, message@), ..old(self)@ }),
    {
        let ghost before = self.logs@;
        if self.logs.len() == MAX_LOG_LINES {
            self.logs.pop_front();
            proof {
                assert(self.logs@ =~= before.drop_first());
            }
        }
        let ghost middle = self.logs@;
        self.logs.push_back(message);
        proof {
            assert(self.logs@ =~= middle.push(message));
            assert(self@.logs =~= log_spec(old(self)@.logs, message@));
        }
    }

    /// Drops the last character of the input line, if any.
    fn delete_last(&mut self)
        ensures
            final(self)@ == (AppModel {
                input: if old(self)@.input.len() == 0 {
                    old(self)@.input
                } else {
                    old(self)@.input.drop_last()
                },
                ..old(self)@
            }),
    {
        let chars = chars_of(self.input.as_str());
        let end = if chars.len() > 0 {
            chars.len() - 1
        } else {
            0
        };
        let kept = char_range(&chars, 0, end);
        self.input = string_from_chars(&kept);
        proof {
            assert(kept@ =~= if chars@.len() == 0 {
                chars@
            } else {
                chars@.drop_last()
            });
        }
    }

    fn submit(&mut self) -> (res: Option<Intent>)
        ensures
            (final(self)@, intent_view(res)) == submit_spec(old(self)@),
    {
        let chars = chars_of(self.input.as_str());
        let (start, end) = trim_bounds(&chars);
        let kept = char_range(&chars, start, end);
        let value = string_from_chars(&kept);
        if value.as_str().is_empty() {
            self.log("Input is empty".to_owned());
            return None;
        }
        self.input = String::new();
        match self.mode {
            Mode::Send => Some(Intent::SendFile(value)),
            Mode::Chat => {
                let ghost before = self@.messages;
                self.messages.push(ChatMessage { incoming: false, text: value.clone() });
                proof {
                    assert(self@.messages =~= before.push((false, value@)));
                }
                Some(Intent::SendChat(value))
            },
            Mode::Receive => None,
        }
    }

    /// What a key press does to the state, and what it asks of the runtime.
    pub fn handle_key(&mut self, key: Key) -> (res: Option<Intent>)
        ensures
            (final(self)@, intent_view(res)) == handle_key_spec(old(self)@, key),
    {
        match key {
            Key::Tab => {
                self.mode = self.mode.next();
                self.editing = !(self.mode == Mode::Receive);
                None
            },
            Key::Esc if self.editing => {
                self.editing = false;
                None
            },
            Key::Esc if !self.editing => Some(Intent::Quit),
            Key::Char(c) if c == 'q' && !self.editing => Some(Intent::Quit),
            Key::Char(c) if (c == '1' || c == '2' || c == '3') && !self.editing => {
                self.mode = if c == '1' {
                    Mode::Send
                } else if c == '2' {
                    Mode::Receive
                } else {
                    Mode::Chat
                };
                None
            },
            Key::Enter if !self.editing && !(self.mode == Mode::Receive) => {
                self.editing = true;
                None
            },
            Key::Enter if self.mode == Mode::Receive => Some(
                if self.receiving {
                    Intent::StopReceive
                } else {
                    Intent::StartReceive
                },
            ),
            Key::Char(c) if c == 'r' && !self.editing && self.mode == Mode::Chat => Some(
                if self.receiving {
                    Intent::StopReceive
                } else {
                    Intent::StartReceive
                },
            ),
            Key::Enter => self.submit(),
            Key::Backspace => {
                if self.editing {
                    self.delete_last();
                }
                None
            },
            Key::Char(c) if self.editing && !is_control(c) => {
                push_char(&mut self.input, c);
                None
            },
            _ => None,
        }
    }
}

/// What the runtime reports to the front end.
#[derive(Debug)]
#[allow(inconsistent_fields)]
pub enum AppEvent {
    Status(String),
    Error(String),
    RxStarted { device: String, sample_rate: u32 },
    RxStopped,
    TransferStarted { name: String, size: u64 },
    TransferProgress { completed: u32, total: u32 },
    FileReceived(String),
    ChatReceived(String),
    TxStarted,
    TxProgress { current: usize, total: usize },
    TxFinished,
}

/// The meaning of an `AppEvent`.
#[allow(inconsistent_fields)]
pub enum AppEventModel {
    Status(Seq<char>),
    Error(Seq<char>),
    RxStarted { device: Seq<char>, sample_rate: u32 },
    RxStopped,
    TransferStarted { name: Seq<char>, size: u64 },
    TransferProgress { completed: u32, total: u32 },
    FileReceived(Seq<char>),
    ChatReceived(Seq<char>),
    TxStarted,
    TxProgress { current: usize, total: usize },
    TxFinished,
}

impl View for AppEvent {
    type V = AppEventModel;

    open spec fn view(&self) -> AppEventModel {
        match self {
            AppEvent::Status(m) => AppEventModel::Status(m@),
            AppEvent::Error(m) => AppEventModel::Error(m@),
            AppEvent::RxStarted { device, sample_rate } => AppEventModel::RxStarted {
                device: device@,
                sample_rate: *sample_rate,
            },
            AppEvent::RxStopped => AppEventModel::RxStopped,
            AppEvent::TransferStarted { name, size } => AppEventModel::TransferStarted {
                name: name@,
                size: *size,
            },
            AppEvent::TransferProgress { completed, total } => AppEventModel::TransferProgress {
                completed: *completed,
                total: *total,
            },
            AppEvent::FileReceived(path) => AppEventModel::FileReceived(path@),
            AppEvent::ChatReceived(text) => AppEventModel::ChatReceived(text@),
            AppEvent::TxStarted => AppEventModel::TxStarted,
            AppEvent::TxProgress { current, total } => AppEventModel::TxProgress {
                current: *current,
                total: *total,
            },
            AppEvent::TxFinished => AppEventModel::TxFinished,
        }
    }
}

/// What a runtime report does to the state: status and error lines go to
/// the log; listening, transfers and transmissions update their state and
/// log what happened; a chat message joins the history.
pub open spec fn update_spec(s: AppModel, e: AppEventModel) -> AppModel {
    match e {
        AppEventModel::Status(m) => AppModel { logs: log_spec(s.logs, m), ..s },
        AppEventModel::Error(m) => AppModel { logs: log_spec(s.logs, "Error: "@ + m), ..s },
        AppEventModel::RxStarted { device, sample_rate } => AppModel {
            receiving: true,
            input_device: Some(device),
            logs: log_spec(
                s.logs,
                "Listening on "@ + device + " at "@ + decimal_spec(sample_rate as u64) + " Hz"@,
            ),
            ..s
        },
        AppEventModel::RxStopped => AppModel {
            receiving: false,
            logs: log_spec(s.logs, "Listening stopped"@),
            ..s
        },
        AppEventModel::TransferStarted { name, size } => AppModel {
            transfer_progress: Some((0, 0)),
            logs: log_spec(s.logs, "Receiving "@ + name + " ("@ + decimal_spec(size) + " bytes)"@),
            ..s
        },
        AppEventModel::TransferProgress { completed, total } => AppModel {
            transfer_progress: Some((completed, total)),
            ..s
        },
        AppEventModel::FileReceived(path) => AppModel {
            received_path: Some(path),
            transfer_progress: None,
            logs: log_spec(s.logs, "Saved "@ + path),
            ..s
        },
        AppEventModel::ChatReceived(text) => AppModel { messages: s.messages.push((true, text)), ..s },
        AppEventModel::TxStarted => AppModel {
            tx_progress: Some((0, 0)),
            logs: log_spec(s.logs, "Acoustic transmission started"@),
            ..s
        },
        AppEventModel::TxProgress { current, total } => AppModel {
            tx_progress: Some((current, total)),
            ..s
        },
        AppEventModel::TxFinished => AppModel {
            tx_progress: None,
            logs: log_spec(s.logs, "Acoustic transmission stopped"@),
            ..s
        },
    }
}

/// `prefix` followed by `rest`.
fn joined(prefix: &str, rest: &str) -> (res: String)
    ensures
        res@ == prefix@ + rest@,
{
    let mut text = prefix.to_owned();
    append_str(&mut text, rest);
    text
}

impl App {
    /// What a runtime report does to the state (see `update_spec`).
    pub fn update(&mut self, event: AppEvent)
        ensures
            final(self)@ == update_spec(old(self)@, event@),
    {
        match event {
            AppEvent::Status(message) => self.log(message),
            AppEvent::Error(message) => self.log(joined("Error: ", message.as_str())),
            AppEvent::RxStarted { device, sample_rate } => {
                self.receiving = true;
                let mut line = joined("Listening on ", device.as_str());
                append_str(&mut line, " at ");
                let digits = decimal(sample_rate as u64);
                append_chars(&mut line, digits.as_slice());
                append_str(&mut line, " Hz");
                self.input_device = Some(device);
                self.log(line);
            },
            AppEvent::RxStopped => {
                self.receiving = false;
                self.log("Listening stopped".to_owned());
            },
            AppEvent::TransferStarted { name, size } => {
                self.transfer_progress = Some((0, 0));
                let mut line = joined("Receiving ", name.as_str());
                append_str(&mut line, " (");
                let digits = decimal(size);
                append_chars(&mut line, digits.as_slice());
                append_str(&mut line, " bytes)");
                self.log(line);
            },
            AppEvent::TransferProgress { completed, total } => {
                self.transfer_progress = Some((completed, total));
            },
            AppEvent::FileReceived(path) => {
                let line = joined("Saved ", path.as_str());
                self.received_path = Some(path);
                self.transfer_progress = None;
                self.log(line);
            },
            AppEvent::ChatReceived(text) => {
                let ghost before = self@.messages;
                self.messages.push(ChatMessage { incoming: true, text });
                proof {
                    assert(self@.messages =~= before.push((true, text@)));
                }
            },
            AppEvent::TxStarted => {
                self.tx_progress = Some((0, 0));
                self.log("Acoustic transmission started".to_owned());
            },
            AppEvent::TxProgress { current, total } => {
                self.tx_progress = Some((current, total));
            },
            AppEvent::TxFinished => {
                self.tx_progress = None;
                self.log("Acoustic transmission stopped".to_owned());
            },
        }
    }
}

/// What the front end does with a receiver event: report it, or first save
/// the content of a completed file transfer.
#[derive(Debug)]
pub enum ReceivedAction {
    Report(AppEvent),
    Save(TransferMetadata, Vec<u8>),
}

/// `res` is what a receiver event calls for: the start and progress of a
/// transfer are reported; a completed chat message is shown when it is
/// UTF-8, else reported as an error; any other completed transfer is saved;
/// a failure is reported with the transfer's id and the reason.
pub open spec fn action_spec(event: TransferEvent, res: ReceivedAction) -> bool {
    match event {
        TransferEvent::Started(metadata) => res@ == ReceivedActionModel::Report(
            AppEventModel::TransferStarted { name: metadata.name@, size: metadata.original_size },
        ),
        TransferEvent::Progress { id, completed_groups, total_groups } => res@
            == ReceivedActionModel::Report(
            AppEventModel::TransferProgress { completed: completed_groups, total: total_groups },
        ),
        TransferEvent::Completed { metadata, data } => if is_chat_spec(metadata.content_type@) {
            if valid_utf8(data@) {
                res@ == ReceivedActionModel::Report(
                    AppEventModel::ChatReceived(decode_utf8(data@)),
                )
            } else {
                res@ == ReceivedActionModel::Report(
                    AppEventModel::Error("received chat is not valid UTF-8"@),
                )
            }
        } else {
            res@ == ReceivedActionModel::Save(metadata@, data@)
        },
        TransferEvent::Failed { id, reason } => res@ == ReceivedActionModel::Report(
            AppEventModel::Error("transfer "@ + hex_id_spec(id) + " failed: "@ + reason@),
        ),
    }
}

/// The meaning of a `ReceivedAction`.
pub enum ReceivedActionModel {
    Report(AppEventModel),
    Save(crate::transfer::types::MetadataModel, Seq<u8>),
}

impl View for ReceivedAction {
    type V = ReceivedActionModel;

    open spec fn view(&self) -> ReceivedActionModel {
        match self {
            ReceivedAction::Report(event) => ReceivedActionModel::Report(event@),
            ReceivedAction::Save(metadata, data) => ReceivedActionModel::Save(metadata@, data@),
        }
    }
}

/// What a receiver event calls for (see `action_spec`).
pub fn classify_transfer_event(event: TransferEvent) -> (res: ReceivedAction)
    ensures
        action_spec(event, res),
{
    match event {
        TransferEvent::Started(metadata) => ReceivedAction::Report(
            AppEvent::TransferStarted { name: metadata.name, size: metadata.original_size },
        ),
        TransferEvent::Progress { id, completed_groups, total_groups } => ReceivedAction::Report(
            AppEvent::TransferProgress { completed: completed_groups, total: total_groups },
        ),
        TransferEvent::Completed { metadata, data } => {
            if is_chat_content_type(metadata.content_type.as_str()) {
                match string_from_utf8(data.as_slice()) {
                    Some(text) => ReceivedAction::Report(AppEvent::ChatReceived(text)),
                    None => ReceivedAction::Report(
                        AppEvent::Error("received chat is not valid UTF-8".to_owned()),
                    ),
                }
            } else {
                ReceivedAction::Save(metadata, data)
            }
        },
        TransferEvent::Failed { id, reason } => {
            let mut message = "transfer ".to_owned();
            let digits = hex_id(id);
            append_str(&mut message, digits.as_str());
            append_str(&mut message, " failed: ");
            append_str(&mut message, reason.as_str());
            ReceivedAction::Report(AppEvent::Error(message))
        },
    }
}

} // verus!
