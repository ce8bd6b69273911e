//! The command-line tools: the sender's flags and their values, the
//! defaults and what they select, and what the receiving tools print.

use vstd::prelude::*;
use crate::bytes::copy_bytes;
use crate::hybrid::{hybrid_packet_routes, route_spec, PacketPhy};
use crate::mobile::opt_view;
use crate::ofdm::{OfdmModulation, OfdmProfile};
use crate::protocol::{AcousticProfile, PhyMode, MAX_LANES};
use crate::mobile::{hex_id, hex_id_spec, is_text, is_text_spec};
use crate::output::{decimal, decimal_spec};
use crate::text::{append_chars, append_str, chars_of, string_bytes, string_from_utf8};
use crate::transfer::metadata::{is_chat_content_type, is_chat_spec};
use crate::transfer::types::{MetadataModel, TransferEvent, TransferMetadata};
use vstd::utf8::{decode_utf8, valid_utf8};
use vstd::utf8::encode_utf8;

verus! {

/// The options of a send.
#[derive(Debug)]
pub struct SendOptions {
    pub positional: Vec<String>,
    pub wav_output: Option<String>,
    pub content_type: Option<String>,
    pub name: Option<String>,
    pub play: bool,
    pub compress: bool,
    pub robust: bool,
    pub fsk: bool,
    pub qam16: bool,
    pub lane: u8,
}

/// The options of a send, as text.
pub struct SendOptionsModel {
    pub positional: Seq<Seq<char>>,
    pub wav_output: Option<Seq<char>>,
    pub content_type: Option<Seq<char>>,
    pub name: Option<Seq<char>>,
    pub play: bool,
    pub compress: bool,
    pub robust: bool,
    pub fsk: bool,
    pub qam16: bool,
    pub lane: u8,
}

/// The text of each string.
pub open spec fn strings_view(v: Seq<String>) -> Seq<Seq<char>> {
    v.map_values(|s: String| s@)
}

impl View for SendOptions {
    type V = SendOptionsModel;

    open spec fn view(&self) -> SendOptionsModel {
        SendOptionsModel {
            positional: strings_view(self.positional@),
            wav_output: opt_view(self.wav_output),
            content_type: opt_view(self.content_type),
            name: opt_view(self.name),
            play: self.play,
            compress: self.compress,
            robust: self.robust,
            fsk: self.fsk,
            qam16: self.qam16,
            lane: self.lane,
        }
    }
}

/// What the command line asks for: a send, or the usage text.
#[derive(Debug)]
pub enum SendCommand {
    Run(SendOptions),
    Help,
}

/// Why a command line is refused.
#[derive(Debug)]
pub enum ArgsError {
    /// The flag needs a value and none follows it.
    MissingValue(String),
    /// The lane is not a number below the number of lanes.
    BadLane,
    /// More than one of `--robust`, `--fsk` and `--qam16`.
    Exclusive,
}

pub enum CommandModel {
    Run(SendOptionsModel),
    Help,
}

pub enum ArgsErrorModel {
    MissingValue(Seq<char>),
    BadLane,
    Exclusive,
}

/// The model of a parse result.
pub open spec fn command_view(res: Result<SendCommand, ArgsError>) -> Result<CommandModel, ArgsErrorModel> {
    match res {
        Ok(SendCommand::Run(o)) => Ok(CommandModel::Run(o@)),
        Ok(SendCommand::Help) => Ok(CommandModel::Help),
        Err(ArgsError::MissingValue(flag)) => Err(ArgsErrorModel::MissingValue(flag@)),
        Err(ArgsError::BadLane) => Err(ArgsErrorModel::BadLane),
        Err(ArgsError::Exclusive) => Err(ArgsErrorModel::Exclusive),
    }
}

/// The options before any flag: play, compress, OFDM, lane 0.
pub open spec fn default_send_options() -> SendOptionsModel {
    SendOptionsModel {
        positional: Seq::empty(),
        wav_output: None,
        content_type: None,
        name: None,
        play: true,
        compress: true,
        robust: false,
        fsk: false,
        qam16: false,
        lane: 0,
    }
}

/// `'0'..='9'`.
pub open spec fn is_digit(c: char) -> bool {
    '0' <= c <= '9'
}

/// `s` without a leading `+`.
pub open spec fn unsigned_part(s: Seq<char>) -> Seq<char> {
    if s.len() > 0 && s[0] == '+' {
        s.drop_first()
    } else {
        s
    }
}

/// Every character of `s` is a decimal digit.
pub open spec fn all_digits(s: Seq<char>) -> bool {
    forall|i: int| 0 <= i < s.len() ==> is_digit(#[trigger] s[i])
}

/// The number that the decimal digits `s` write.
pub open spec fn decimal_value(s: Seq<char>) -> int
    decreases s.len(),
{
    if s.len() == 0 {
        0
    } else {
        decimal_value(s.drop_last()) * 10 + (s.last() as int - '0' as int)
    }
}

/// What `str::parse::<u8>` makes of `s`: an optional `+`, then one or more
/// decimal digits writing a number up to 255.
pub open spec fn u8_text_spec(s: Seq<char>) -> Option<u8> {
    let digits = unsigned_part(s);
    if digits.len() > 0 && all_digits(digits) && decimal_value(digits) <= 255 {
        Some(decimal_value(digits) as u8)
    } else {
        None
    }
}

/// The lane that `s` names, when it is a lane.
pub open spec fn lane_spec(s: Seq<char>) -> Option<u8> {
    match u8_text_spec(s) {
        Some(lane) => if lane < MAX_LANES {
            Some(lane)
        } else {
            None
        },
        None => None,
    }
}

/// How many of the three modulation flags are set.
pub open spec fn mode_flags(o: SendOptionsModel) -> int {
    (if o.robust {
        1int
    } else {
        0int
    }) + (if o.fsk {
        1int
    } else {
        0int
    }) + (if o.qam16 {
        1int
    } else {
        0int
    })
}

/// What the rest `args` of a command line makes of options `o`, read from
/// left to right: a flag that needs a value takes the next argument; help
/// stops the reading; anything else is a positional argument; at the end
/// at most one modulation flag may be set.
pub open spec fn parse_send_spec(args: Seq<Seq<char>>, o: SendOptionsModel) -> Result<CommandModel, ArgsErrorModel>
    decreases args.len(),
{
    if args.len() == 0 {
        if mode_flags(o) > 1 {
            Err(ArgsErrorModel::Exclusive)
        } else {
            Ok(CommandModel::Run(o))
        }
    } else {
        let a = args[0];
        let rest = args.drop_first();
        if a == "-o"@ || a == "--output"@ || a == "--content-type"@ || a == "--name"@ || a
            == "--lane"@ {
            if rest.len() == 0 {
                Err(ArgsErrorModel::MissingValue(a))
            } else {
                let value = rest[0];
                if a == "--lane"@ {
                    match lane_spec(value) {
                        Some(lane) => parse_send_spec(
                            rest.drop_first(),
                            SendOptionsModel { lane, ..o },
                        ),
                        None => Err(ArgsErrorModel::BadLane),
                    }
                } else if a == "--content-type"@ {
                    parse_send_spec(
                        rest.drop_first(),
                        SendOptionsModel { content_type: Some(value), ..o },
                    )
                } else if a == "--name"@ {
                    parse_send_spec(rest.drop_first(), SendOptionsModel { name: Some(value), ..o })
                } else {
                    parse_send_spec(
                        rest.drop_first(),
                        SendOptionsModel { wav_output: Some(value), ..o },
                    )
                }
            }
        } else if a == "--no-play"@ {
            parse_send_spec(rest, SendOptionsModel { play: false, ..o })
        } else if a == "--no-compress"@ {
            parse_send_spec(rest, SendOptionsModel { compress: false, ..o })
        } else if a == "--robust"@ {
            parse_send_spec(rest, SendOptionsModel { robust: true, ..o })
        } else if a == "--fsk"@ {
            parse_send_spec(rest, SendOptionsModel { fsk: true, ..o })
        } else if a == "--qam16"@ {
            parse_send_spec(rest, SendOptionsModel { qam16: true, ..o })
        } else if a == "-h"@ || a == "--help"@ {
            Ok(CommandModel::Help)
        } else {
            parse_send_spec(rest, SendOptionsModel { positional: o.positional.push(a), ..o })
        }
    }
}

/// Whether `arg` is `text`.
fn is_arg(arg: &String, text: &str) -> (res: bool)
    ensures
        res == (arg@ == text@),
{
    let expected = text.to_owned();
    *arg == expected
}

/// A decimal with more digits is at least as large.
proof fn lemma_decimal_grows(s: Seq<char>, k: int)
    requires
        0 <= k <= s.len(),
        forall|i: int| 0 <= i < s.len() ==> is_digit(#[trigger] s[i]),
    ensures
        decimal_value(s) >= decimal_value(s.subrange(0, k)),
        decimal_value(s) >= 0,
    decreases s.len(),
{
    if s.len() > 0 {
        assert forall|i: int| 0 <= i < s.drop_last().len() implies is_digit(
            #[trigger] s.drop_last()[i],
        ) by {
            assert(s.drop_last()[i] == s[i]);
        }
        if k == s.len() {
            assert(s.subrange(0, k) =~= s);
            lemma_decimal_grows(s.drop_last(), 0);
        } else {
            assert(s.drop_last().subrange(0, k) =~= s.subrange(0, k));
            lemma_decimal_grows(s.drop_last(), k);
        }
        assert(is_digit(s.last()));
    } else {
        assert(s.subrange(0, k) =~= s);
    }
}

/// `text` read as a `u8` the way `str::parse::<u8>` reads it.
pub fn parse_u8_text(text: &String) -> (res: Option<u8>)
    ensures
        res == u8_text_spec(text@),
{
    let chars = chars_of(text.as_str());
    let len = chars.len();
    let start: usize = if len > 0 && chars[0] == '+' {
        1
    } else {
        0
    };
    let ghost s = chars@;
    let ghost digits = unsigned_part(s);
    proof {
        assert(text@ == s);
        assert(digits =~= s.subrange(start as int, len as int));
    }
    if start == len {
        return None;
    }
    let mut value: u32 = 0;
    let mut i: usize = start;
    while i < len
        invariant
            s == chars@,
            text@ == s,
            digits == unsigned_part(s),
            len == s.len(),
            start <= i <= len,
            start < len,
            digits == s.subrange(start as int, len as int),
            forall|j: int| start <= j < i ==> is_digit(#[trigger] s[j]),
            value == decimal_value(s.subrange(start as int, i as int)),
            value <= 255,
        decreases len - i,
    {
        let c = chars[i];
        if !('0' <= c && c <= '9') {
            proof {
                assert(digits[i - start] == c);
                assert(!is_digit(digits[i - start]));
                assert(!all_digits(digits));
                assert(u8_text_spec(s) is None);
            }
            return None;
        }
        let digit = (c as u32) - ('0' as u32);
        proof {
            assert(s.subrange(start as int, i + 1).drop_last() =~= s.subrange(start as int, i as int));
        }
        value = value * 10 + digit;
        i = i + 1;
        if value > 255 {
            proof {
                if all_digits(digits) {
                    lemma_decimal_grows(digits, i - start);
                    assert(digits.subrange(0, i - start) =~= s.subrange(start as int, i as int));
                }
                assert(u8_text_spec(s) is None);
            }
            return None;
        }
    }
    proof {
        assert(s.subrange(start as int, len as int) =~= digits);
        assert forall|j: int| 0 <= j < digits.len() implies is_digit(#[trigger] digits[j]) by {
            assert(digits[j] == s[start + j]);
        }
    }
    Some(value as u8)
}

/// The lane that `text` names, when it is one.
pub fn parse_lane(text: &String) -> (res: Option<u8>)
    ensures
        res == lane_spec(text@),
{
    match parse_u8_text(text) {
        Some(lane) => if lane < MAX_LANES {
            Some(lane)
        } else {
            None
        },
        None => None,
    }
}

impl SendOptions {
    /// The options before any flag.
    pub fn defaults() -> (res: Self)
        ensures
            res@ == default_send_options(),
    {
        let res = SendOptions {
            positional: Vec::new(),
            wav_output: None,
            content_type: None,
            name: None,
            play: true,
            compress: true,
            robust: false,
            fsk: false,
            qam16: false,
            lane: 0,
        };
        proof {
            assert(res@.positional =~= Seq::<Seq<char>>::empty());
        }
        res
    }
}

/// Flags that take a value: `-o` and `--output` are synonyms that set the
/// WAV output and nothing else; `--content-type` sets the content type and
/// `--name` the name, and nothing else; reading goes on after the value.
/// Each of these flags with no value after it is refused, naming the flag.
pub proof fn lemma_value_flags(v: Seq<char>, rest: Seq<Seq<char>>, o: SendOptionsModel)
    ensures
        parse_send_spec(seq!["--output"@, v] + rest, o) == parse_send_spec(
            rest,
            SendOptionsModel { wav_output: Some(v), ..o },
        ),
        parse_send_spec(seq!["-o"@, v] + rest, o) == parse_send_spec(seq!["--output"@, v] + rest, o),
        parse_send_spec(seq!["--content-type"@, v] + rest, o) == parse_send_spec(
            rest,
            SendOptionsModel { content_type: Some(v), ..o },
        ),
        parse_send_spec(seq!["--name"@, v] + rest, o) == parse_send_spec(
            rest,
            SendOptionsModel { name: Some(v), ..o },
        ),
        parse_send_spec(seq!["--output"@], o) == Err::<CommandModel, ArgsErrorModel>(
            ArgsErrorModel::MissingValue("--output"@),
        ),
        parse_send_spec(seq!["-o"@], o) == Err::<CommandModel, ArgsErrorModel>(
            ArgsErrorModel::MissingValue("-o"@),
        ),
{
    reveal_strlit("-o");
    reveal_strlit("--output");
    reveal_strlit("--content-type");
    reveal_strlit("--name");
    reveal_strlit("--lane");
    let flags = seq!["--output"@, "-o"@, "--content-type"@, "--name"@];
    assert forall|k: int| 0 <= k < 4 implies ({
        let a = #[trigger] flags[k];
        let args = seq![a, v] + rest;
        &&& args[0] == a
        &&& args.drop_first() =~= seq![v] + rest
        &&& (seq![v] + rest)[0] == v
        &&& (seq![v] + rest).drop_first() =~= rest
    }) by {}
    assert(("--output"@).len() == 8 && ("-o"@).len() == 2 && ("--content-type"@).len() == 14
        && ("--name"@).len() == 6 && ("--lane"@).len() == 6);
    assert("--name"@ != "--lane"@) by {
        assert(("--name"@)[2] == 'n' && ("--lane"@)[2] == 'l');
    }
    assert(flags[0] == "--output"@ && flags[1] == "-o"@ && flags[2] == "--content-type"@ && flags[3]
        == "--name"@);
    assert(seq!["--output"@].drop_first() =~= Seq::<Seq<char>>::empty());
    assert(seq!["-o"@].drop_first() =~= Seq::<Seq<char>>::empty());
}

/// Reads the sender's command line (the arguments after the program name).
#[verifier::rlimit(40)]
pub fn parse_send_args(args: &Vec<String>) -> (res: Result<SendCommand, ArgsError>)
    ensures
        command_view(res) == parse_send_spec(strings_view(args@), default_send_options()),
{
    let ghost all = strings_view(args@);
    let mut o = SendOptions::defaults();
    let mut i: usize = 0;
    let len = args.len();
    proof {
        assert(all.subrange(0, len as int) =~= all);
    }
    while i < len
        invariant
            len == args@.len(),
            all == strings_view(args@),
            i <= len,
            parse_send_spec(all.subrange(i as int, len as int), o@) == parse_send_spec(
                all,
                default_send_options(),
            ),
        decreases len - i,
    {
        let ghost rest = all.subrange(i as int, len as int);
        proof {
            assert(rest[0] == args@[i as int]@);
            assert(rest.drop_first() =~= all.subrange(i + 1, len as int));
            if i + 1 < len {
                assert(rest.drop_first()[0] == args@[i + 1]@);
                assert(rest.drop_first().drop_first() =~= all.subrange(i + 2, len as int));
            }
        }
        let arg = &args[i];
        let takes_value = is_arg(arg, "-o") || is_arg(arg, "--output") || is_arg(
            arg,
            "--content-type",
        ) || is_arg(arg, "--name") || is_arg(arg, "--lane");
        if takes_value {
            if i + 1 >= len {
                return Err(ArgsError::MissingValue(arg.clone()));
            }
            let value = &args[i + 1];
            if is_arg(arg, "--lane") {
                match parse_lane(value) {
                    Some(lane) => {
                        o.lane = lane;
                    },
                    None => {
                        return Err(ArgsError::BadLane);
                    },
                }
            } else if is_arg(arg, "--content-type") {
                o.content_type = Some(value.clone());
            } else if is_arg(arg, "--name") {
                o.name = Some(value.clone());
            } else {
                o.wav_output = Some(value.clone());
            }
            i = i + 2;
        } else {
            if is_arg(arg, "--no-play") {
                o.play = false;
            } else if is_arg(arg, "--no-compress") {
                o.compress = false;
            } else if is_arg(arg, "--robust") {
                o.robust = true;
            } else if is_arg(arg, "--fsk") {
                o.fsk = true;
            } else if is_arg(arg, "--qam16") {
                o.qam16 = true;
            } else if is_arg(arg, "-h") || is_arg(arg, "--help") {
                return Ok(SendCommand::Help);
            } else {
                let ghost before = o@.positional;
                o.positional.push(arg.clone());
                proof {
                    assert(o@.positional =~= before.push(arg@));
                }
            }
            i = i + 1;
        }
    }
    proof {
        assert(all.subrange(i as int, len as int) =~= Seq::<Seq<char>>::empty());
    }
    let count = (if o.robust {
        1u8
    } else {
        0u8
    }) + (if o.fsk {
        1u8
    } else {
        0u8
    }) + (if o.qam16 {
        1u8
    } else {
        0u8
    });
    if count > 1 {
        return Err(ArgsError::Exclusive);
    }
    Ok(SendCommand::Run(o))
}

impl SendOptions {
    /// The FSK profile the options select: robust or fast, on their lane.
    pub fn profile(&self) -> (res: AcousticProfile)
        requires
            self.lane < MAX_LANES,
        ensures
            res.spec_mode() == (if self.robust {
                PhyMode::Robust
            } else {
                PhyMode::Fast
            }),
            res.spec_lane() == self.lane,
    {
        if self.robust {
            AcousticProfile::robust(self.lane)
        } else {
            AcousticProfile::fast(self.lane)
        }
    }

    /// The OFDM profile the options select: QAM-16 or QPSK, on their lane.
    pub fn ofdm_profile(&self) -> (res: OfdmProfile)
        requires
            self.lane < MAX_LANES,
        ensures
            res.spec_modulation() == (if self.qam16 {
                OfdmModulation::Qam16
            } else {
                OfdmModulation::Qpsk
            }),
            res.spec_lane() == self.lane,
    {
        if self.qam16 {
            OfdmProfile::qam16(self.lane)
        } else {
            OfdmProfile::qpsk(self.lane)
        }
    }

    /// The name of the mode the options select.
    pub fn mode_label(&self) -> (res: &'static str)
        ensures
            res@ == (if self.robust {
                "FSK Robust"@
            } else if self.fsk {
                "FSK Fast"@
            } else if self.qam16 {
                "OFDM fast"@
            } else {
                "OFDM safe"@
            }),
    {
        if self.robust {
            "FSK Robust"
        } else if self.fsk {
            "FSK Fast"
        } else if self.qam16 {
            "OFDM fast"
        } else {
            "OFDM safe"
        }
    }

    /// The layer of each packet: FSK for every packet under `--robust` or
    /// `--fsk`, else the hybrid routing.
    pub fn routes(&self, packets: &[Vec<u8>]) -> (res: Vec<PacketPhy>)
        ensures
            res@.len() == packets@.len(),
            forall|i: int|
                0 <= i < packets@.len() ==> #[trigger] res@[i] == if self.robust || self.fsk {
                    PacketPhy::Fsk
                } else {
                    route_spec(packets@[i]@)
                },
    {
        if self.robust || self.fsk {
            let mut routes: Vec<PacketPhy> = Vec::new();
            let mut i: usize = 0;
            while i < packets.len()
                invariant
                    i <= packets@.len(),
                    routes@.len() == i,
                    forall|j: int| 0 <= j < i ==> #[trigger] routes@[j] == PacketPhy::Fsk,
                decreases packets@.len() - i,
            {
                routes.push(PacketPhy::Fsk);
                i = i + 1;
            }
            routes
        } else {
            hybrid_packet_routes(packets)
        }
    }
}

/// The name, content type and bytes of a text message: `message.txt` and
/// `text/plain; charset=utf-8` unless the options name others.
pub fn text_input(options: &SendOptions, text: String) -> (res: (String, String, Vec<u8>))
    ensures
        res.0@ == (match options.name {
            Some(name) => name@,
            None => "message.txt"@,
        }),
        res.1@ == (match options.content_type {
            Some(content_type) => content_type@,
            None => "text/plain; charset=utf-8"@,
        }),
        res.2@ == encode_utf8(text@),
{
    let name = match &options.name {
        Some(name) => name.clone(),
        None => "message.txt".to_owned(),
    };
    let content_type = match &options.content_type {
        Some(content_type) => content_type.clone(),
        None => "text/plain; charset=utf-8".to_owned(),
    };
    let bytes = copy_bytes(string_bytes(&text));
    (name, content_type, bytes)
}

/// How the receiving tools print: `listen` follows a live stream, `decode`
/// a recording.
#[derive(Debug, Clone, Copy, PartialEq, Eq, Structural)]
pub enum OutputStyle {
    Listen,
    Decode,
}

/// A line for standard output or standard error.
#[derive(Debug)]
pub enum Line {
    Stdout(String),
    Stderr(String),
}

/// What a receiving tool does with a receiver event: print lines (and
/// whether the event completes a transfer that `decode` counts), or save a
/// completed file first.
#[derive(Debug)]
pub enum EventOutcome {
    Print(Vec<Line>, bool),
    Save(TransferMetadata, Vec<u8>),
}

/// A line as (on standard error, text).
pub open spec fn line_view(line: Line) -> (bool, Seq<char>) {
    match line {
        Line::Stdout(text) => (false, text@),
        Line::Stderr(text) => (true, text@),
    }
}

pub open spec fn lines_view(lines: Seq<Line>) -> Seq<(bool, Seq<char>)> {
    lines.map_values(|l: Line| line_view(l))
}

/// `transfer <id>: `.
pub open spec fn transfer_prefix(id: u64) -> Seq<char> {
    "transfer "@ + hex_id_spec(id) + ": "@
}

/// The lines an event prints and whether `decode` counts it, or `None`
/// when the event is a completed file that must be saved first: a start
/// shows the name, type and size (and, while listening, the group count);
/// progress shows the groups done; a chat message is shown when it is
/// UTF-8, else reported; a failure is reported with its reason.
pub open spec fn describe_spec(event: TransferEvent, style: OutputStyle) -> Option<(Seq<(bool, Seq<char>)>, bool)> {
    match event {
        TransferEvent::Started(m) => {
            let head = transfer_prefix(m.id) + "'"@ + m.name@ + "' ("@ + m.content_type@ + "), "@
                + decimal_spec(m.original_size) + " bytes"@;
            Some(
                (
                    seq![
                        (
                            false,
                            if style == OutputStyle::Listen {
                                head + ", "@ + decimal_spec(m.group_count as u64) + " groups"@
                            } else {
                                head
                            },
                        ),
                    ],
                    false,
                ),
            )
        },
        TransferEvent::Progress { id, completed_groups, total_groups } => {
            let done = decimal_spec(completed_groups as u64) + "/"@ + decimal_spec(
                total_groups as u64,
            );
            Some(
                (
                    seq![
                        (
                            false,
                            if style == OutputStyle::Listen {
                                transfer_prefix(id) + "group "@ + done + " reconstructed"@
                            } else {
                                transfer_prefix(id) + done + " groups"@
                            },
                        ),
                    ],
                    false,
                ),
            )
        },
        TransferEvent::Completed { metadata, data } => if is_chat_spec(metadata.content_type@) {
            Some(
                (
                    seq![
                        if valid_utf8(data@) {
                            (
                                false,
                                "chat "@ + hex_id_spec(metadata.id) + " >> "@ + decode_utf8(data@),
                            )
                        } else {
                            (
                                true,
                                "chat "@ + hex_id_spec(metadata.id)
                                    + " failed: message is not valid UTF-8"@,
                            )
                        },
                    ],
                    style == OutputStyle::Decode,
                ),
            )
        } else {
            None
        },
        TransferEvent::Failed { id, reason } => Some(
            (seq![(true, "transfer "@ + hex_id_spec(id) + " failed: "@ + reason@)], false),
        ),
    }
}

/// The lines after a completed file was saved at `path`: where it went,
/// then its text when its type is textual (a warning while listening when
/// that text is not UTF-8).
pub open spec fn saved_spec(m: MetadataModel, data: Seq<u8>, path: Seq<char>, style: OutputStyle) -> Seq<(bool, Seq<char>)> {
    let saved = if style == OutputStyle::Listen {
        "received "@ + hex_id_spec(m.id) + ": '"@ + m.content_type + "' verified and saved to '"@
            + path + "'"@
    } else {
        "saved verified file: '"@ + path + "'"@
    };
    let text = if !is_text_spec(m.content_type) {
        Seq::empty()
    } else if valid_utf8(data) {
        seq![(false, ">> "@ + decode_utf8(data))]
    } else if style == OutputStyle::Listen {
        seq![(true, "warning: declared text is not valid UTF-8"@)]
    } else {
        Seq::empty()
    };
    seq![(false, saved)] + text
}

/// `n` in decimal, as a string.
fn decimal_string(n: u64) -> (res: String)
    ensures
        res@ == decimal_spec(n),
{
    let digits = decimal(n);
    let mut out = String::new();
    append_chars(&mut out, digits.as_slice());
    proof {
        assert(out@ =~= decimal_spec(n));
    }
    out
}

/// What a receiving tool does with an event (see `describe_spec`).
pub fn describe_event(event: TransferEvent, style: OutputStyle) -> (res: EventOutcome)
    ensures
        match describe_spec(event, style) {
            Some((lines, counts)) => res matches EventOutcome::Print(l, c) && lines_view(l@) == lines
                && c == counts,
            None => res matches EventOutcome::Save(m, d) && event matches TransferEvent::Completed {
                metadata,
                data,
            } && m@ == metadata@ && d@ == data@,
        },
{
    match event {
        TransferEvent::Started(m) => {
            let id = hex_id(m.id);
            let size = decimal_string(m.original_size);
            let mut text = "transfer ".to_owned();
            append_str(&mut text, id.as_str());
            append_str(&mut text, ": ");
            append_str(&mut text, "'");
            append_str(&mut text, m.name.as_str());
            append_str(&mut text, "' (");
            append_str(&mut text, m.content_type.as_str());
            append_str(&mut text, "), ");
            append_str(&mut text, size.as_str());
            append_str(&mut text, " bytes");
            if style == OutputStyle::Listen {
                let groups = decimal_string(m.group_count as u64);
                append_str(&mut text, ", ");
                append_str(&mut text, groups.as_str());
                append_str(&mut text, " groups");
            }
            let mut lines: Vec<Line> = Vec::new();
            lines.push(Line::Stdout(text));
            proof {
                assert(lines_view(lines@) =~= describe_spec(event, style)->Some_0.0);
            }
            EventOutcome::Print(lines, false)
        },
        TransferEvent::Progress { id, completed_groups, total_groups } => {
            let hex = hex_id(id);
            let done = decimal_string(completed_groups as u64);
            let total = decimal_string(total_groups as u64);
            let mut count = String::new();
            append_str(&mut count, done.as_str());
            append_str(&mut count, "/");
            append_str(&mut count, total.as_str());
            let mut text = "transfer ".to_owned();
            append_str(&mut text, hex.as_str());
            append_str(&mut text, ": ");
            if style == OutputStyle::Listen {
                append_str(&mut text, "group ");
                append_str(&mut text, count.as_str());
                append_str(&mut text, " reconstructed");
            } else {
                append_str(&mut text, count.as_str());
                append_str(&mut text, " groups");
            }
            let mut lines: Vec<Line> = Vec::new();
            lines.push(Line::Stdout(text));
            proof {
                assert(count@ =~= decimal_spec(completed_groups as u64) + "/"@ + decimal_spec(
                    total_groups as u64,
                ));
                assert(lines_view(lines@) =~= describe_spec(event, style)->Some_0.0);
            }
            EventOutcome::Print(lines, false)
        },
        TransferEvent::Completed { metadata, data } => {
            if !is_chat_content_type(metadata.content_type.as_str()) {
                return EventOutcome::Save(metadata, data);
            }
            let hex = hex_id(metadata.id);
            let mut lines: Vec<Line> = Vec::new();
            match string_from_utf8(data.as_slice()) {
                Some(message) => {
                    let mut text = "chat ".to_owned();
                    append_str(&mut text, hex.as_str());
                    append_str(&mut text, " >> ");
                    append_str(&mut text, message.as_str());
                    lines.push(Line::Stdout(text));
                },
                None => {
                    let mut text = "chat ".to_owned();
                    append_str(&mut text, hex.as_str());
                    append_str(&mut text, " failed: message is not valid UTF-8");
                    lines.push(Line::Stderr(text));
                },
            }
            proof {
                assert(lines_view(lines@) =~= describe_spec(event, style)->Some_0.0);
            }
            EventOutcome::Print(lines, style == OutputStyle::Decode)
        },
        TransferEvent::Failed { id, reason } => {
            let hex = hex_id(id);
            let mut text = "transfer ".to_owned();
            append_str(&mut text, hex.as_str());
            append_str(&mut text, " failed: ");
            append_str(&mut text, reason.as_str());
            let mut lines: Vec<Line> = Vec::new();
            lines.push(Line::Stderr(text));
            proof {
                assert(lines_view(lines@) =~= describe_spec(event, style)->Some_0.0);
            }
            EventOutcome::Print(lines, false)
        },
    }
}

/// The lines after a completed file was saved at `path` (see
/// `saved_spec`); `decode` counts the transfer.
pub fn describe_saved(metadata: &TransferMetadata, data: &[u8], path: &str, style: OutputStyle) -> (res: Vec<Line>)
    ensures
        lines_view(res@) == saved_spec(metadata@, data@, path@, style),
{
    let mut text: String;
    if style == OutputStyle::Listen {
        let hex = hex_id(metadata.id);
        text = "received ".to_owned();
        append_str(&mut text, hex.as_str());
        append_str(&mut text, ": '");
        append_str(&mut text, metadata.content_type.as_str());
        append_str(&mut text, "' verified and saved to '");
        append_str(&mut text, path);
        append_str(&mut text, "'");
    } else {
        text = "saved verified file: '".to_owned();
        append_str(&mut text, path);
        append_str(&mut text, "'");
    }
    let mut lines: Vec<Line> = Vec::new();
    lines.push(Line::Stdout(text));
    if is_text(metadata.content_type.as_str()) {
        match string_from_utf8(data) {
            Some(body) => {
                let mut shown = ">> ".to_owned();
                append_str(&mut shown, body.as_str());
                lines.push(Line::Stdout(shown));
            },
            None => {
                if style == OutputStyle::Listen {
                    lines.push(Line::Stderr("warning: declared text is not valid UTF-8".to_owned()));
                }
            },
        }
    }
    proof {
        assert(lines_view(lines@) =~= saved_spec(metadata@, data@, path@, style));
    }
    lines
}

} // verus!
