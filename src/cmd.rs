//! The commands: how each is read from a request frame and written as one.
use vstd::prelude::*;
use vstd::string::*;
use vstd::utf8::*;

use crate::frame::{Frame, FrameV};
use crate::parse::{bytes_of, int_of, string_of, Parse, ParseError};

verus! {

/// What `str::to_lowercase` makes of a text.
pub uninterp spec fn lower_of(s: Seq<char>) -> Seq<char>;

/// Relies on str::to_lowercase: the result depends on the characters alone.
#[verifier::external_body]
fn lowercase(s: &String) -> (r: String)
    ensures
        r@ == lower_of(s@),
{
    s.as_str().to_lowercase()
}

/// Whether `s` holds exactly the characters of `lit`.
fn text_is(s: &String, lit: &str) -> (r: bool)
    ensures
        r == (s@ == lit@),
{
    let l = String::from_str(lit);
    *s == l
}

/// The texts held by a list of strings.
pub open spec fn texts(v: Seq<String>) -> Seq<Seq<char>> {
    v.map_values(|s: String| s@)
}

/// Milliseconds for `seconds`, held at `u64::MAX` when they do not fit.
pub open spec fn seconds_to_millis(seconds: u64) -> u64 {
    if seconds * 1000 > u64::MAX {
        u64::MAX
    } else {
        (seconds * 1000) as u64
    }
}

/// The value of a command.
pub enum CommandV {
    Get { key: Seq<char> },
    SetCmd { key: Seq<char>, value: Seq<u8>, expire: Option<u64> },
    Publish { channel: Seq<char>, message: Seq<u8> },
    Subscribe { channels: Seq<Seq<char>> },
    Unsubscribe { channels: Seq<Seq<char>> },
    ExitSubscribe,
    Ping { msg: Option<Seq<u8>> },
    Save,
    Del { key: Seq<char> },
    Unknown { name: Seq<char> },
}

/// GET key: the value stored under `key`.
#[derive(Debug)]
pub struct Get {
    pub key: String,
}

/// SET key value [EX seconds | PX milliseconds]: store `value` under `key`,
/// with an optional time to live in milliseconds.
#[derive(Debug)]
pub struct SetCmd {
    pub key: String,
    pub value: Vec<u8>,
    pub expire: Option<u64>,
}

/// PUBLISH channel message.
#[derive(Debug)]
pub struct Publish {
    pub channel: String,
    pub message: Vec<u8>,
}

/// SUBSCRIBE channel [channel ...].
#[derive(Debug)]
pub struct Subscribe {
    pub channels: Vec<String>,
}

/// UNSUBSCRIBE [channel ...]; no channel means all of them.
#[derive(Debug)]
pub struct Unsubscribe {
    pub channels: Vec<String>,
}

/// EXITSUBSCRIBE: leave subscribe mode.
#[derive(Debug)]
pub struct ExitSubscribe;

/// PING [message].
#[derive(Debug)]
pub struct Ping {
    pub msg: Option<Vec<u8>>,
}

/// SAVE: write a snapshot of the keyspace.
#[derive(Debug)]
pub struct Save;

/// DEL key.
#[derive(Debug)]
pub struct Del {
    pub key: String,
}

/// A command whose name is not known.
#[derive(Debug)]
pub struct Unknown {
    pub command_name: String,
}

/// A request, decoded.
#[derive(Debug)]
pub enum Command {
    Get(Get),
    SetCmd(SetCmd),
    Publish(Publish),
    Subscribe(Subscribe),
    Unsubscribe(Unsubscribe),
    ExitSubscribe(ExitSubscribe),
    Ping(Ping),
    Save(Save),
    Del(Del),
    Unknown(Unknown),
}

impl View for Command {
    type V = CommandV;

    open spec fn view(&self) -> CommandV {
        match self {
            Command::Get(c) => CommandV::Get { key: c.key@ },
            Command::SetCmd(c) => CommandV::SetCmd {
                key: c.key@,
                value: c.value@,
                expire: c.expire,
            },
            Command::Publish(c) => CommandV::Publish {
                channel: c.channel@,
                message: c.message@,
            },
            Command::Subscribe(c) => CommandV::Subscribe { channels: texts(c.channels@) },
            Command::Unsubscribe(c) => CommandV::Unsubscribe { channels: texts(c.channels@) },
            Command::ExitSubscribe(_) => CommandV::ExitSubscribe,
            Command::Ping(c) => CommandV::Ping {
                msg: match c.msg {
                    Some(m) => Some(m@),
                    None => None,
                },
            },
            Command::Save(_) => CommandV::Save,
            Command::Del(c) => CommandV::Del { key: c.key@ },
            Command::Unknown(c) => CommandV::Unknown { name: c.command_name@ },
        }
    }
}

/// Fails with `Trailing` when elements remain.
pub open spec fn finished(args: Seq<FrameV>, used: int, c: CommandV) -> Result<CommandV, ParseError> {
    if args.len() > used {
        Err(ParseError::Trailing)
    } else {
        Ok(c)
    }
}

/// The texts of `args`, or the first element that is not text.
pub open spec fn strings_of(args: Seq<FrameV>) -> Result<Seq<Seq<char>>, ParseError>
    decreases args.len(),
{
    if args.len() == 0 {
        Ok(Seq::empty())
    } else {
        match string_of(args[0]) {
            Err(e) => Err(e),
            Ok(s) => match strings_of(args.drop_first()) {
                Err(e) => Err(e),
                Ok(rest) => Ok(seq![s] + rest),
            },
        }
    }
}

/// The time to live that a SET option and its argument give.
pub open spec fn expire_of(option: Seq<char>, arg: Option<FrameV>) -> Result<u64, ParseError> {
    if lower_of(option) == "ex"@ || lower_of(option) == "px"@ {
        match arg {
            None => Err(ParseError::EndOfStream),
            Some(a) => match int_of(a) {
                Err(e) => Err(e),
                Ok(n) => if lower_of(option) == "ex"@ {
                    Ok(seconds_to_millis(n))
                } else {
                    Ok(n)
                },
            },
        }
    } else {
        Err(ParseError::UnknownOption)
    }
}

/// The SET command that `args` spell.
pub open spec fn set_of(args: Seq<FrameV>) -> Result<CommandV, ParseError> {
    if args.len() == 0 {
        Err(ParseError::EndOfStream)
    } else {
        match string_of(args[0]) {
            Err(e) => Err(e),
            Ok(key) => if args.len() == 1 {
                Err(ParseError::EndOfStream)
            } else {
                match bytes_of(args[1]) {
                    Err(e) => Err(e),
                    Ok(value) => if args.len() == 2 {
                        Ok(CommandV::SetCmd { key, value, expire: None })
                    } else {
                        match string_of(args[2]) {
                            Err(e) => Err(e),
                            Ok(option) => match expire_of(
                                option,
                                if args.len() > 3 {
                                    Some(args[3])
                                } else {
                                    None
                                },
                            ) {
                                Err(e) => Err(e),
                                Ok(ms) => finished(
                                    args,
                                    4,
                                    CommandV::SetCmd { key, value, expire: Some(ms) },
                                ),
                            },
                        }
                    },
                }
            },
        }
    }
}

/// The command named `name` (already in lower case) with arguments `args`.
pub open spec fn decode_spec(name: Seq<char>, args: Seq<FrameV>) -> Result<CommandV, ParseError> {
    if name == "get"@ || name == "del"@ {
        if args.len() == 0 {
            Err(ParseError::EndOfStream)
        } else {
            match string_of(args[0]) {
                Err(e) => Err(e),
                Ok(key) => finished(
                    args,
                    1,
                    if name == "get"@ {
                        CommandV::Get { key }
                    } else {
                        CommandV::Del { key }
                    },
                ),
            }
        }
    } else if name == "ping"@ {
        if args.len() == 0 {
            Ok(CommandV::Ping { msg: None })
        } else {
            match bytes_of(args[0]) {
                Err(e) => Err(e),
                Ok(m) => finished(args, 1, CommandV::Ping { msg: Some(m) }),
            }
        }
    } else if name == "publish"@ {
        if args.len() == 0 {
            Err(ParseError::EndOfStream)
        } else {
            match string_of(args[0]) {
                Err(e) => Err(e),
                Ok(channel) => if args.len() == 1 {
                    Err(ParseError::EndOfStream)
                } else {
                    match bytes_of(args[1]) {
                        Err(e) => Err(e),
                        Ok(message) => finished(args, 2, CommandV::Publish { channel, message }),
                    }
                },
            }
        }
    } else if name == "set"@ {
        set_of(args)
    } else if name == "subscribe"@ || name == "unsubscribe"@ {
        if name == "subscribe"@ && args.len() == 0 {
            Err(ParseError::EndOfStream)
        } else {
            match strings_of(args) {
                Err(e) => Err(e),
                Ok(channels) => if name == "subscribe"@ {
                    Ok(CommandV::Subscribe { channels })
                } else {
                    Ok(CommandV::Unsubscribe { channels })
                },
            }
        }
    } else if name == "exitsubscribe"@ {
        finished(args, 0, CommandV::ExitSubscribe)
    } else if name == "save"@ {
        finished(args, 0, CommandV::Save)
    } else {
        Ok(CommandV::Unknown { name })
    }
}

/// The command that a request frame holds: its first element names it, in
/// any case.
pub open spec fn request_spec(frame: FrameV) -> Result<CommandV, ParseError> {
    match frame {
        FrameV::Array(items) => if items.len() == 0 {
            Err(ParseError::EndOfStream)
        } else {
            match string_of(items[0]) {
                Err(e) => Err(e),
                Ok(name) => decode_spec(lower_of(name), items.drop_first()),
            }
        },
        _ => Err(ParseError::NotArray),
    }
}


/// What `decode_named` promises for a decoding result.
pub open spec fn decoded_as(r: Result<Command, ParseError>, spec: Result<CommandV, ParseError>) -> bool {
    match spec {
        Ok(c) => r matches Ok(cmd) && cmd@ == c,
        Err(e) => r matches Err(x) && x == e,
    }
}

/// Reads the remaining elements as texts, appending them to `channels`.
fn read_strings(parse: &mut Parse, channels: &mut Vec<String>) -> (r: Result<(), ParseError>)
    ensures
        match strings_of(old(parse).rest()) {
            Ok(ss) => r is Ok && texts(final(channels)@) == texts(old(channels)@) + ss,
            Err(e) => r == Err::<(), ParseError>(e),
        },
{
    loop
        invariant
            match strings_of(old(parse).rest()) {
                Ok(ss) => strings_of(parse.rest()) matches Ok(tail) && texts(old(channels)@) + ss
                    == texts(channels@) + tail,
                Err(e) => strings_of(parse.rest()) == Err::<Seq<Seq<char>>, ParseError>(e),
            },
        decreases parse.rest().len(),
    {
        let ghost rest = parse.rest();
        match parse.next_string() {
            Ok(c) => {
                let ghost before = channels@;
                channels.push(c);
                proof {
                    assert(texts(channels@) =~= texts(before).push(c@));
                    if let Ok(ss) = strings_of(old(parse).rest()) {
                        if let Ok(tail) = strings_of(parse.rest()) {
                            assert(texts(channels@) + tail =~= texts(before) + (seq![c@] + tail));
                        }
                    }
                }
            },
            Err(ParseError::EndOfStream) => {
                proof {
                    if let Ok(ss) = strings_of(old(parse).rest()) {
                        assert(texts(channels@) + Seq::<Seq<char>>::empty() =~= texts(channels@));
                    }
                }
                return Ok(());
            },
            Err(e) => return Err(e),
        }
    }
}

/// The characters of the command and option names.
pub proof fn lemma_names()
    ensures
        "get"@ == seq!['g', 'e', 't'],
        "del"@ == seq!['d', 'e', 'l'],
        "ping"@ == seq!['p', 'i', 'n', 'g'],
        "publish"@ == seq!['p', 'u', 'b', 'l', 'i', 's', 'h'],
        "set"@ == seq!['s', 'e', 't'],
        "subscribe"@ == seq!['s', 'u', 'b', 's', 'c', 'r', 'i', 'b', 'e'],
        "unsubscribe"@ == seq!['u', 'n', 's', 'u', 'b', 's', 'c', 'r', 'i', 'b', 'e'],
        "exitsubscribe"@ == seq!['e', 'x', 'i', 't', 's', 'u', 'b', 's', 'c', 'r', 'i', 'b', 'e'],
        "save"@ == seq!['s', 'a', 'v', 'e'],
        "ex"@ == seq!['e', 'x'],
        "px"@ == seq!['p', 'x'],
{
    reveal_strlit("get");
    reveal_strlit("del");
    reveal_strlit("ping");
    reveal_strlit("publish");
    reveal_strlit("set");
    reveal_strlit("subscribe");
    reveal_strlit("unsubscribe");
    reveal_strlit("exitsubscribe");
    reveal_strlit("save");
    reveal_strlit("ex");
    reveal_strlit("px");
}

impl Get {
    pub fn new(key: String) -> (r: Get)
        ensures
            r.key@ == key@,
    {
        Get { key }
    }

    /// The key to read.
    pub fn key(&self) -> (r: &String)
        ensures
            r@ == self.key@,
    {
        &self.key
    }

    /// Reads the arguments of a GET: one key.
    pub fn decode_get_from_frame(parse: &mut Parse) -> (r: Result<Get, ParseError>)
        ensures
            match decode_spec("get"@, old(parse).rest()) {
                Ok(c) => r matches Ok(x) && Command::Get(x)@ == c,
                Err(e) => r matches Err(x) && x == e,
            },
    {
        proof {
            lemma_names();
        }
        let key = match parse.next_string() {
            Ok(k) => k,
            Err(e) => return Err(e),
        };
        match parse.is_finish() {
            Ok(()) => {},
            Err(e) => return Err(e),
        }
        Ok(Get::new(key))
    }
}

impl Del {
    pub fn new(key: String) -> (r: Del)
        ensures
            r.key@ == key@,
    {
        Del { key }
    }

    /// Reads the arguments of a DEL: one key.
    pub fn decode_del_from_frame(parse: &mut Parse) -> (r: Result<Del, ParseError>)
        ensures
            match decode_spec("del"@, old(parse).rest()) {
                Ok(c) => r matches Ok(x) && Command::Del(x)@ == c,
                Err(e) => r matches Err(x) && x == e,
            },
    {
        proof {
            lemma_names();
        }
        let key = match parse.next_string() {
            Ok(k) => k,
            Err(e) => return Err(e),
        };
        match parse.is_finish() {
            Ok(()) => {},
            Err(e) => return Err(e),
        }
        Ok(Del::new(key))
    }
}

impl Ping {
    pub fn new(msg: Option<Vec<u8>>) -> (r: Ping)
        ensures
            r.msg == msg,
    {
        Ping { msg }
    }

    /// Reads the arguments of a PING: an optional message.
    pub fn decode_ping_from_frame(parse: &mut Parse) -> (r: Result<Ping, ParseError>)
        ensures
            match decode_spec("ping"@, old(parse).rest()) {
                Ok(c) => r matches Ok(x) && Command::Ping(x)@ == c,
                Err(e) => r matches Err(x) && x == e,
            },
    {
        proof {
            lemma_names();
        }
        let msg = match parse.next_bytes() {
            Ok(msg) => msg,
            Err(ParseError::EndOfStream) => return Ok(Ping::new(None)),
            Err(e) => return Err(e),
        };
        match parse.is_finish() {
            Ok(()) => {},
            Err(e) => return Err(e),
        }
        Ok(Ping::new(Some(msg)))
    }
}

impl Publish {
    pub fn new(channel: String, message: Vec<u8>) -> (r: Publish)
        ensures
            r.channel@ == channel@,
            r.message@ == message@,
    {
        Publish { channel, message }
    }

    /// Reads the arguments of a PUBLISH: a channel and a message.
    pub fn decode_publish_from_frame(parse: &mut Parse) -> (r: Result<Publish, ParseError>)
        ensures
            match decode_spec("publish"@, old(parse).rest()) {
                Ok(c) => r matches Ok(x) && Command::Publish(x)@ == c,
                Err(e) => r matches Err(x) && x == e,
            },
    {
        proof {
            lemma_names();
        }
        let channel = match parse.next_string() {
            Ok(c) => c,
            Err(e) => return Err(e),
        };
        let message = match parse.next_bytes() {
            Ok(m) => m,
            Err(e) => return Err(e),
        };
        match parse.is_finish() {
            Ok(()) => {},
            Err(e) => return Err(e),
        }
        Ok(Publish::new(channel, message))
    }
}

impl SetCmd {
    pub fn new(key: String, value: Vec<u8>, expire: Option<u64>) -> (r: SetCmd)
        ensures
            r.key@ == key@,
            r.value@ == value@,
            r.expire == expire,
    {
        SetCmd { key, value, expire }
    }

    /// The key to write.
    pub fn key(&self) -> (r: &String)
        ensures
            r@ == self.key@,
    {
        &self.key
    }

    /// The value to store.
    pub fn value(&self) -> (r: &Vec<u8>)
        ensures
            r@ == self.value@,
    {
        &self.value
    }

    /// The time to live, in milliseconds.
    pub fn expire(&self) -> (r: Option<u64>)
        ensures
            r == self.expire,
    {
        self.expire
    }

    /// Reads the arguments of a SET: a key, a value, and an optional
    /// `EX seconds` or `PX milliseconds`; the option's name may be in any case.
    pub fn decode_set_from_frame(parse: &mut Parse) -> (r: Result<SetCmd, ParseError>)
        ensures
            match decode_spec("set"@, old(parse).rest()) {
                Ok(c) => r matches Ok(x) && Command::SetCmd(x)@ == c,
                Err(e) => r matches Err(x) && x == e,
            },
    {
        proof {
            lemma_names();
        }
        let ghost args = parse.rest();
        let key = match parse.next_string() {
            Ok(k) => k,
            Err(e) => return Err(e),
        };
        let value = match parse.next_bytes() {
            Ok(v) => v,
            Err(e) => return Err(e),
        };
        let expire = match parse.next_string() {
            Ok(option) => {
                let ghost third = parse.rest();
                let lowered = lowercase(&option);
                if text_is(&lowered, "ex") {
                    let seconds = match parse.next_int() {
                        Ok(n) => n,
                        Err(e) => return Err(e),
                    };
                    if seconds > u64::MAX / 1000 {
                        Some(u64::MAX)
                    } else {
                        Some(seconds * 1000)
                    }
                } else if text_is(&lowered, "px") {
                    match parse.next_int() {
                        Ok(n) => Some(n),
                        Err(e) => return Err(e),
                    }
                } else {
                    return Err(ParseError::UnknownOption);
                }
            },
            Err(ParseError::EndOfStream) => None,
            Err(e) => return Err(e),
        };
        match parse.is_finish() {
            Ok(()) => {},
            Err(e) => return Err(e),
        }
        Ok(SetCmd::new(key, value, expire))
    }
}

impl Subscribe {
    pub fn new(channels: Vec<String>) -> (r: Subscribe)
        ensures
            r.channels@ == channels@,
    {
        Subscribe { channels }
    }

    /// Reads the arguments of a SUBSCRIBE: one or more channels.
    pub fn decode_subscribe_from_frame(parse: &mut Parse) -> (r: Result<Subscribe, ParseError>)
        ensures
            match decode_spec("subscribe"@, old(parse).rest()) {
                Ok(c) => r matches Ok(x) && Command::Subscribe(x)@ == c,
                Err(e) => r matches Err(x) && x == e,
            },
    {
        proof {
            lemma_names();
        }
        let first = match parse.next_string() {
            Ok(c) => c,
            Err(e) => return Err(e),
        };
        let mut channels: Vec<String> = Vec::new();
        channels.push(first);
        match read_strings(parse, &mut channels) {
            Ok(()) => {},
            Err(e) => return Err(e),
        }
        proof {
            assert(texts(seq![first]) =~= seq![first@]);
        }
        Ok(Subscribe::new(channels))
    }
}

impl Unsubscribe {
    pub fn new(channels: Vec<String>) -> (r: Unsubscribe)
        ensures
            r.channels@ == channels@,
    {
        Unsubscribe { channels }
    }

    /// Reads the arguments of an UNSUBSCRIBE: any number of channels.
    pub fn decode_unsubscribe_from_frame(parse: &mut Parse) -> (r: Result<Unsubscribe, ParseError>)
        ensures
            match decode_spec("unsubscribe"@, old(parse).rest()) {
                Ok(c) => r matches Ok(x) && Command::Unsubscribe(x)@ == c,
                Err(e) => r matches Err(x) && x == e,
            },
    {
        proof {
            lemma_names();
        }
        let mut channels: Vec<String> = Vec::new();
        match read_strings(parse, &mut channels) {
            Ok(()) => {},
            Err(e) => return Err(e),
        }
        proof {
            assert(texts(Seq::<String>::empty()) =~= Seq::<Seq<char>>::empty());
        }
        Ok(Unsubscribe::new(channels))
    }
}

impl ExitSubscribe {
    /// Reads the arguments of an EXITSUBSCRIBE: none.
    pub fn decode_exit_subscribe_from_frame(parse: &mut Parse) -> (r: Result<ExitSubscribe, ParseError>)
        ensures
            match decode_spec("exitsubscribe"@, old(parse).rest()) {
                Ok(c) => r matches Ok(x) && Command::ExitSubscribe(x)@ == c,
                Err(e) => r matches Err(x) && x == e,
            },
    {
        proof {
            lemma_names();
        }
        match parse.is_finish() {
            Ok(()) => {},
            Err(e) => return Err(e),
        }
        Ok(ExitSubscribe)
    }
}

impl Save {
    pub fn new() -> (r: Save) {
        Save
    }

    /// Decodes a SAVE. It takes no argument and reads none: surplus
    /// arguments are left to the caller's check that the request is used up.
    pub fn decode_save_from_frame() -> (r: Result<Save, ParseError>)
        ensures
            r is Ok,
    {
        Ok(Save::new())
    }
}

impl Unknown {
    pub fn new(name: String) -> (r: Unknown)
        ensures
            r.command_name@ == name@,
    {
        Unknown { command_name: name }
    }

    /// The name the command was sent under.
    pub fn get_name(&self) -> (r: &String)
        ensures
            r@ == self.command_name@,
    {
        &self.command_name
    }
}


/// The UTF-8 bytes of `s`.
pub(crate) fn text_bytes(s: &str) -> (r: Vec<u8>)
    ensures
        r@ == encode_utf8(s@),
{
    s.as_bytes_vec()
}

/// The items of a request frame: the name, then a bulk frame per argument.
pub open spec fn bulk_texts(v: Seq<Seq<char>>) -> Seq<FrameV> {
    v.map_values(|s: Seq<char>| FrameV::Bulk(encode_utf8(s)))
}

impl Get {
    /// The request frame for this command.
    pub fn code_get_into_frame(self) -> (r: Frame)
        ensures
            r@ == FrameV::Array(seq![FrameV::Bulk(encode_utf8("get"@)), FrameV::Bulk(encode_utf8(self.key@))]),
    {
        let mut frame = Frame::array();
        frame.push_bulk(text_bytes("get"));
        frame.push_bulk(self.key.as_str().as_bytes_vec());
        proof {
            assert(frame@->Array_0 =~= seq![FrameV::Bulk(encode_utf8("get"@)), FrameV::Bulk(encode_utf8(self.key@))]);
        }
        frame
    }
}

impl Del {
    /// The request frame for this command.
    pub fn code_del_into_frame(self) -> (r: Frame)
        ensures
            r@ == FrameV::Array(seq![FrameV::Bulk(encode_utf8("del"@)), FrameV::Bulk(encode_utf8(self.key@))]),
    {
        let mut frame = Frame::array();
        frame.push_bulk(text_bytes("del"));
        frame.push_bulk(self.key.as_str().as_bytes_vec());
        proof {
            assert(frame@->Array_0 =~= seq![FrameV::Bulk(encode_utf8("del"@)), FrameV::Bulk(encode_utf8(self.key@))]);
        }
        frame
    }
}

impl Ping {
    /// The request frame for this command.
    pub fn code_ping_into_frame(self) -> (r: Frame)
        ensures
            r@ == FrameV::Array(match self.msg {
                Some(m) => seq![FrameV::Bulk(encode_utf8("ping"@)), FrameV::Bulk(m@)],
                None => seq![FrameV::Bulk(encode_utf8("ping"@))],
            }),
    {
        let mut frame = Frame::array();
        frame.push_bulk(text_bytes("ping"));
        if let Some(msg) = self.msg {
            frame.push_bulk(msg);
        }
        proof {
            assert(frame@->Array_0 =~= match self.msg {
                Some(m) => seq![FrameV::Bulk(encode_utf8("ping"@)), FrameV::Bulk(m@)],
                None => seq![FrameV::Bulk(encode_utf8("ping"@))],
            });
        }
        frame
    }
}

impl Publish {
    /// The request frame for this command.
    pub fn code_publish_into_frame(self) -> (r: Frame)
        ensures
            r@ == FrameV::Array(seq![
                FrameV::Bulk(encode_utf8("publish"@)),
                FrameV::Bulk(encode_utf8(self.channel@)),
                FrameV::Bulk(self.message@),
            ]),
    {
        let mut frame = Frame::array();
        frame.push_bulk(text_bytes("publish"));
        frame.push_bulk(self.channel.as_str().as_bytes_vec());
        frame.push_bulk(self.message);
        proof {
            assert(frame@->Array_0 =~= seq![
                FrameV::Bulk(encode_utf8("publish"@)),
                FrameV::Bulk(encode_utf8(self.channel@)),
                FrameV::Bulk(self.message@),
            ]);
        }
        frame
    }
}

impl SetCmd {
    /// The request frame for this command; a time to live is sent as PX.
    pub fn code_set_into_frame(self) -> (r: Frame)
        ensures
            r@ == FrameV::Array(
                seq![
                    FrameV::Bulk(encode_utf8("set"@)),
                    FrameV::Bulk(encode_utf8(self.key@)),
                    FrameV::Bulk(self.value@),
                ] + match self.expire {
                    Some(ms) => seq![FrameV::Bulk(encode_utf8("px"@)), FrameV::Integer(ms)],
                    None => Seq::empty(),
                },
            ),
    {
        let mut frame = Frame::array();
        frame.push_bulk(text_bytes("set"));
        frame.push_bulk(self.key.as_str().as_bytes_vec());
        frame.push_bulk(self.value);
        if let Some(ms) = self.expire {
            frame.push_bulk(text_bytes("px"));
            frame.push_int(ms);
        }
        proof {
            assert(frame@->Array_0 =~= seq![
                FrameV::Bulk(encode_utf8("set"@)),
                FrameV::Bulk(encode_utf8(self.key@)),
                FrameV::Bulk(self.value@),
            ] + match self.expire {
                Some(ms) => seq![FrameV::Bulk(encode_utf8("px"@)), FrameV::Integer(ms)],
                None => Seq::empty(),
            });
        }
        frame
    }
}

/// Appends a bulk frame for each channel.
fn push_channels(frame: &mut Frame, channels: Vec<String>)
    requires
        *old(frame) is Array,
    ensures
        final(frame)@ == FrameV::Array(old(frame)@->Array_0 + bulk_texts(texts(channels@))),
{
    let mut i: usize = 0;
    while i < channels.len()
        invariant
            i <= channels.len(),
            *frame is Array,
            frame@ == FrameV::Array(
                old(frame)@->Array_0 + bulk_texts(texts(channels@)).subrange(0, i as int),
            ),
        decreases channels.len() - i,
    {
        frame.push_bulk(channels[i].as_str().as_bytes_vec());
        i = i + 1;
        proof {
            let all = bulk_texts(texts(channels@));
            assert(all[i - 1] == FrameV::Bulk(encode_utf8(channels@[i - 1]@)));
            assert(old(frame)@->Array_0 + all.subrange(0, i as int) =~= (old(frame)@->Array_0
                + all.subrange(0, i - 1)).push(all[i - 1]));
        }
    }
    proof {
        assert(bulk_texts(texts(channels@)).subrange(0, i as int) =~= bulk_texts(texts(channels@)));
    }
}

impl Subscribe {
    /// The request frame for this command.
    pub fn code_subscribe_into_frame(self) -> (r: Frame)
        ensures
            r@ == FrameV::Array(
                seq![FrameV::Bulk(encode_utf8("subscribe"@))] + bulk_texts(texts(self.channels@)),
            ),
    {
        let mut frame = Frame::array();
        frame.push_bulk(text_bytes("subscribe"));
        push_channels(&mut frame, self.channels);
        frame
    }
}

impl Unsubscribe {
    /// The request frame for this command.
    pub fn code_unsubscribe_into_frame(self) -> (r: Frame)
        ensures
            r@ == FrameV::Array(
                seq![FrameV::Bulk(encode_utf8("unsubscribe"@))] + bulk_texts(texts(self.channels@)),
            ),
    {
        let mut frame = Frame::array();
        frame.push_bulk(text_bytes("unsubscribe"));
        push_channels(&mut frame, self.channels);
        frame
    }
}

impl Save {
    /// The request frame for this command.
    pub fn code_save_into_frame(&self) -> (r: Frame)
        ensures
            r@ == FrameV::Array(seq![FrameV::Bulk(encode_utf8("save"@))]),
    {
        let mut frame = Frame::array();
        frame.push_bulk(text_bytes("save"));
        proof {
            assert(frame@->Array_0 =~= seq![FrameV::Bulk(encode_utf8("save"@))]);
        }
        frame
    }
}

impl Command {
    /// The name of the command, in lower case as it was matched.
    pub fn get_name(&self) -> (r: String)
        ensures
            r@ == match self@ {
                CommandV::Get { .. } => "get"@,
                CommandV::SetCmd { .. } => "set"@,
                CommandV::Publish { .. } => "publish"@,
                CommandV::Subscribe { .. } => "subscribe"@,
                CommandV::Unsubscribe { .. } => "unsubscribe"@,
                CommandV::ExitSubscribe => "exitsubscribe"@,
                CommandV::Ping { .. } => "ping"@,
                CommandV::Save => "save"@,
                CommandV::Del { .. } => "del"@,
                CommandV::Unknown { name } => name,
            },
    {
        match self {
            Command::SetCmd(_) => String::from_str("set"),
            Command::Unknown(cmd) => cmd.get_name().clone(),
            Command::Get(_) => String::from_str("get"),
            Command::Publish(_) => String::from_str("publish"),
            Command::Subscribe(_) => String::from_str("subscribe"),
            Command::Unsubscribe(_) => String::from_str("unsubscribe"),
            Command::ExitSubscribe(_) => String::from_str("exitsubscribe"),
            Command::Ping(_) => String::from_str("ping"),
            Command::Save(_) => String::from_str("save"),
            Command::Del(_) => String::from_str("del"),
        }
    }

    /// Decodes the arguments of the command named `name`, which must
    /// already be in lower case; a name that is not known gives `Unknown`
    /// and reads no argument.
    pub fn decode_named(name: String, parse: &mut Parse) -> (r: Result<Command, ParseError>)
        ensures
            decoded_as(r, decode_spec(name@, old(parse).rest())),
    {
        proof {
            lemma_names();
        }
        if text_is(&name, "get") {
            match Get::decode_get_from_frame(parse) {
                Ok(c) => Ok(Command::Get(c)),
                Err(e) => Err(e),
            }
        } else if text_is(&name, "ping") {
            match Ping::decode_ping_from_frame(parse) {
                Ok(c) => Ok(Command::Ping(c)),
                Err(e) => Err(e),
            }
        } else if text_is(&name, "publish") {
            match Publish::decode_publish_from_frame(parse) {
                Ok(c) => Ok(Command::Publish(c)),
                Err(e) => Err(e),
            }
        } else if text_is(&name, "set") {
            match SetCmd::decode_set_from_frame(parse) {
                Ok(c) => Ok(Command::SetCmd(c)),
                Err(e) => Err(e),
            }
        } else if text_is(&name, "subscribe") {
            match Subscribe::decode_subscribe_from_frame(parse) {
                Ok(c) => Ok(Command::Subscribe(c)),
                Err(e) => Err(e),
            }
        } else if text_is(&name, "unsubscribe") {
            match Unsubscribe::decode_unsubscribe_from_frame(parse) {
                Ok(c) => Ok(Command::Unsubscribe(c)),
                Err(e) => Err(e),
            }
        } else if text_is(&name, "exitsubscribe") {
            match ExitSubscribe::decode_exit_subscribe_from_frame(parse) {
                Ok(c) => Ok(Command::ExitSubscribe(c)),
                Err(e) => Err(e),
            }
        } else if text_is(&name, "save") {
            let c = match Save::decode_save_from_frame() {
                Ok(c) => c,
                Err(e) => return Err(e),
            };
            match parse.is_finish() {
                Ok(()) => Ok(Command::Save(c)),
                Err(e) => Err(e),
            }
        } else if text_is(&name, "del") {
            match Del::decode_del_from_frame(parse) {
                Ok(c) => Ok(Command::Del(c)),
                Err(e) => Err(e),
            }
        } else {
            Ok(Command::Unknown(Unknown::new(name)))
        }
    }

    /// Decodes a request frame: an array whose first element names the
    /// command, in any case, and whose other elements are its arguments.
    pub fn decode_cmd_from_frame(frame: Frame) -> (r: Result<Command, ParseError>)
        ensures
            decoded_as(r, request_spec(frame@)),
    {
        let mut parse = match Parse::new(frame) {
            Ok(p) => p,
            Err(e) => return Err(e),
        };
        let name = match parse.next_string() {
            Ok(n) => n,
            Err(e) => return Err(e),
        };
        let lowered = lowercase(&name);
        Command::decode_named(lowered, &mut parse)
    }
}

/// SUBSCRIBE without a channel is refused when decoded, whatever case its
/// name was sent in.
pub proof fn lemma_subscribe_needs_a_channel(frame: FrameV)
    requires
        frame is Array,
        frame->Array_0.len() == 1,
        string_of(frame->Array_0[0]) is Ok,
        lower_of(string_of(frame->Array_0[0])->Ok_0) == "subscribe"@,
    ensures
        request_spec(frame) == Err::<CommandV, ParseError>(ParseError::EndOfStream),
{
    lemma_names();
    let items = frame->Array_0;
    assert(items.drop_first().len() == 0);
}

} // verus!
