//! What a connection does with each request: the command applied to the
//! keyspace, the replies, and the subscribe mode with its channel list.
use vstd::prelude::*;
use vstd::string::*;
use vstd::utf8::*;

use crate::cmd::{Command, CommandV, request_spec, text_bytes, texts};
use crate::frame::{Frame, FrameV};
use crate::parse::ParseError;
use crate::store::{deadline, load_map, should_notify, spec_reap, spec_set, EntryV, State};

verus! {

/// Something the connection must do after a request.
pub enum Action {
    /// Write this frame to the client.
    Reply(Frame),
    /// Start forwarding the messages of this channel from this receiver.
    Listen(String, tokio::sync::broadcast::Receiver<Vec<u8>>),
    /// Stop forwarding the messages of this channel.
    Unlisten(String),
    /// Write these snapshot records, then reply OK.
    Snapshot(Vec<(String, Vec<u8>, Option<u64>)>),
    /// Wake the reaper: an earlier expiry was scheduled.
    WakeReaper,
}

pub enum ActionV {
    Reply(FrameV),
    Listen(Seq<char>),
    Unlisten(Seq<char>),
    Snapshot(Map<Seq<char>, EntryV>),
    WakeReaper,
}

impl View for Action {
    type V = ActionV;

    open spec fn view(&self) -> ActionV {
        match self {
            Action::Reply(f) => ActionV::Reply(f@),
            Action::Listen(c, _) => ActionV::Listen(c@),
            Action::Unlisten(c) => ActionV::Unlisten(c@),
            Action::Snapshot(items) => ActionV::Snapshot(load_map(items@)),
            Action::WakeReaper => ActionV::WakeReaper,
        }
    }
}

pub open spec fn actions_view(v: Seq<Action>) -> Seq<ActionV> {
    v.map_values(|a: Action| a@)
}

/// The connection's mode: subscribed or not, and the channels it listens
/// to, in the order they were subscribed.
pub struct SessionV {
    pub subscribed: bool,
    pub channels: Seq<Seq<char>>,
}

pub open spec fn bulk_text(s: Seq<char>) -> FrameV {
    FrameV::Bulk(encode_utf8(s))
}

pub open spec fn ok_reply() -> FrameV {
    FrameV::Simple("OK"@)
}

/// The reply to GET `key`.
pub open spec fn get_reply(m: Map<Seq<char>, EntryV>, key: Seq<char>) -> FrameV {
    if m.contains_key(key) {
        FrameV::Bulk(m[key].data)
    } else {
        FrameV::Null
    }
}

pub open spec fn subscribe_frame(channel: Seq<char>, count: nat) -> FrameV {
    FrameV::Array(seq![bulk_text("subscribe"@), bulk_text(channel), FrameV::Integer(count as u64)])
}

pub open spec fn unsubscribe_frame(channel: Seq<char>, count: nat) -> FrameV {
    FrameV::Array(seq![bulk_text("unsubscribe"@), bulk_text(channel), FrameV::Integer(count as u64)])
}

pub open spec fn message_frame(channel: Seq<char>, message: Seq<u8>) -> FrameV {
    FrameV::Array(seq![bulk_text("message"@), bulk_text(channel), FrameV::Bulk(message)])
}

/// The error text for a request that names no command this mode accepts.
pub open spec fn unknown_text(name: Seq<char>) -> Seq<char> {
    "ERR unknown command '"@ + name + "'"@
}

/// The error text for a request whose arguments do not fit its command.
pub open spec fn error_text(e: ParseError) -> Seq<char> {
    match e {
        ParseError::NotArray => "ERR protocol error: expected an array frame"@,
        ParseError::EndOfStream => "ERR wrong number of arguments"@,
        ParseError::UnexpectedFrame => "ERR protocol error: unexpected frame type"@,
        ParseError::InvalidString => "ERR protocol error: invalid string"@,
        ParseError::InvalidInteger => "ERR protocol error: invalid integer"@,
        ParseError::Trailing => "ERR wrong number of arguments: unexpected extra argument"@,
        ParseError::UnknownOption => "ERR syntax error: SET only supports the EX and PX options"@,
    }
}

/// The list after subscribing to `channel`; subscribing again keeps it.
pub open spec fn add_channel(list: Seq<Seq<char>>, channel: Seq<char>) -> Seq<Seq<char>> {
    if list.contains(channel) {
        list
    } else {
        list.push(channel)
    }
}

/// The list after unsubscribing from `channel`.
pub open spec fn remove_channel(list: Seq<Seq<char>>, channel: Seq<char>) -> Seq<Seq<char>> {
    if list.contains(channel) {
        list.remove(list.index_of(channel))
    } else {
        list
    }
}

/// Subscribing to each of `chs` in turn: the final list and the actions,
/// a listen and a reply with the count for each.
pub open spec fn subscribe_steps(list: Seq<Seq<char>>, chs: Seq<Seq<char>>) -> (
    Seq<Seq<char>>,
    Seq<ActionV>,
)
    decreases chs.len(),
{
    if chs.len() == 0 {
        (list, Seq::empty())
    } else {
        let next = add_channel(list, chs[0]);
        let rest = subscribe_steps(next, chs.drop_first());
        (
            rest.0,
            seq![
                ActionV::Listen(chs[0]),
                ActionV::Reply(subscribe_frame(chs[0], next.len())),
            ] + rest.1,
        )
    }
}

/// Unsubscribing from each of `chs` in turn: the final list and the
/// actions, a stop and a reply with the remaining count for each.
pub open spec fn unsubscribe_steps(list: Seq<Seq<char>>, chs: Seq<Seq<char>>) -> (
    Seq<Seq<char>>,
    Seq<ActionV>,
)
    decreases chs.len(),
{
    if chs.len() == 0 {
        (list, Seq::empty())
    } else {
        let next = remove_channel(list, chs[0]);
        let rest = unsubscribe_steps(next, chs.drop_first());
        (
            rest.0,
            seq![
                ActionV::Unlisten(chs[0]),
                ActionV::Reply(unsubscribe_frame(chs[0], next.len())),
            ] + rest.1,
        )
    }
}

/// The name a command is known under.
pub open spec fn command_name(c: CommandV) -> Seq<char> {
    match c {
        CommandV::Get { .. } => "get"@,
        CommandV::SetCmd { .. } => "set"@,
        CommandV::Publish { .. } => "publish"@,
        CommandV::Subscribe { .. } => "subscribe"@,
        CommandV::Unsubscribe { .. } => "unsubscribe"@,
        CommandV::ExitSubscribe => "exitsubscribe"@,
        CommandV::Ping { .. } => "ping"@,
        CommandV::Save => "save"@,
        CommandV::Del { .. } => "del"@,
        CommandV::Unknown { name } => name,
    }
}

/// The keyspace is as it was.
pub open spec fn same_store(d0: State, d1: State) -> bool {
    &&& d1.entries() == d0.entries()
    &&& d1.channels() == d0.channels()
    &&& d1.is_shut_down() == d0.is_shut_down()
}

/// What applying `c` does, from mode `s0` and keyspace `d0` at time `now`,
/// to mode `s1`, keyspace `d1` and the actions `acts`.
pub open spec fn step(
    s0: SessionV,
    c: CommandV,
    d0: State,
    d1: State,
    s1: SessionV,
    acts: Seq<ActionV>,
    now: u64,
) -> bool {
    match c {
        CommandV::Subscribe { channels } => {
            &&& d1.entries() == d0.entries()
            &&& d1.channels() == d0.channels() + channels.to_set()
            &&& d1.is_shut_down() == d0.is_shut_down()
            &&& s1.subscribed
            &&& s1.channels == subscribe_steps(s0.channels, channels).0
            &&& acts == subscribe_steps(s0.channels, channels).1
        },
        CommandV::Unsubscribe { channels } if s0.subscribed => {
            let chs = if channels.len() == 0 {
                s0.channels
            } else {
                channels
            };
            &&& same_store(d0, d1)
            &&& s1.subscribed
            &&& s1.channels == unsubscribe_steps(s0.channels, chs).0
            &&& acts == unsubscribe_steps(s0.channels, chs).1
        },
        CommandV::ExitSubscribe if s0.subscribed => {
            &&& same_store(d0, d1)
            &&& !s1.subscribed
            &&& s1.channels == Seq::<Seq<char>>::empty()
            &&& acts == s0.channels.map_values(|ch: Seq<char>| ActionV::Unlisten(ch))
        },
        _ if s0.subscribed => {
            &&& same_store(d0, d1)
            &&& s1 == s0
            &&& acts == seq![ActionV::Reply(FrameV::Error(unknown_text(command_name(c))))]
        },
        CommandV::Get { key } => {
            &&& same_store(d0, d1)
            &&& s1 == s0
            &&& acts == seq![ActionV::Reply(get_reply(d0.entries(), key))]
        },
        CommandV::SetCmd { key, value, expire } => {
            &&& d1.entries() == spec_set(d0.entries(), key, value, expire, now)
            &&& d1.channels() == d0.channels()
            &&& d1.is_shut_down() == d0.is_shut_down()
            &&& s1 == s0
            &&& acts == seq![ActionV::Reply(ok_reply())] + if should_notify(
                d0.entries(),
                expire,
                now,
            ) {
                seq![ActionV::WakeReaper]
            } else {
                Seq::empty()
            }
        },
        CommandV::Del { key } => {
            &&& d1.entries() == d0.entries().remove(key)
            &&& d1.channels() == d0.channels()
            &&& d1.is_shut_down() == d0.is_shut_down()
            &&& s1 == s0
            &&& acts == seq![ActionV::Reply(ok_reply())]
        },
        CommandV::Ping { msg } => {
            &&& same_store(d0, d1)
            &&& s1 == s0
            &&& acts == seq![
                ActionV::Reply(
                    match msg {
                        None => FrameV::Simple("PONG"@),
                        Some(m) => FrameV::Bulk(m),
                    },
                ),
            ]
        },
        CommandV::Publish { channel, message } => {
            &&& same_store(d0, d1)
            &&& s1 == s0
            &&& acts.len() == 1
            &&& acts[0] matches ActionV::Reply(FrameV::Integer(n))
            &&& !d0.channels().contains(channel) ==> acts[0] == ActionV::Reply(FrameV::Integer(0))
        },
        CommandV::Save => {
            &&& same_store(d0, d1)
            &&& s1 == s0
            &&& acts == seq![ActionV::Snapshot(d0.entries())]
        },
        CommandV::Unsubscribe { .. } => {
            &&& same_store(d0, d1)
            &&& s1 == s0
            &&& acts == seq![ActionV::Reply(FrameV::Error("ERR unsubscribe is only accepted in subscribe mode"@))]
        },
        CommandV::ExitSubscribe => {
            &&& same_store(d0, d1)
            &&& s1 == s0
            &&& acts == Seq::<ActionV>::empty()
        },
        CommandV::Unknown { name } => {
            &&& same_store(d0, d1)
            &&& s1 == s0
            &&& acts == seq![ActionV::Reply(FrameV::Error(unknown_text(name)))]
        },
    }
}


/// The reply to each channel of a SUBSCRIBE: the channel and how many the
/// connection now listens to.
pub fn create_subscribe_response_frame(channel: String, num_subs: usize) -> (r: Frame)
    ensures
        r@ == subscribe_frame(channel@, num_subs as nat),
{
    let mut response = Frame::array();
    response.push_bulk(text_bytes("subscribe"));
    response.push_bulk(channel.as_str().as_bytes_vec());
    response.push_int(num_subs as u64);
    proof {
        assert(response@->Array_0 =~= subscribe_frame(channel@, num_subs as nat)->Array_0);
    }
    response
}

/// The reply to each channel of an UNSUBSCRIBE: the channel and how many
/// the connection still listens to.
pub fn create_unsubscribe_response_frame(channel: String, num_subs: usize) -> (r: Frame)
    ensures
        r@ == unsubscribe_frame(channel@, num_subs as nat),
{
    let mut response = Frame::array();
    response.push_bulk(text_bytes("unsubscribe"));
    response.push_bulk(channel.as_str().as_bytes_vec());
    response.push_int(num_subs as u64);
    proof {
        assert(response@->Array_0 =~= unsubscribe_frame(channel@, num_subs as nat)->Array_0);
    }
    response
}

/// The frame that forwards a published message to a subscriber.
pub fn create_message_frame(channel: String, message: Vec<u8>) -> (r: Frame)
    ensures
        r@ == message_frame(channel@, message@),
{
    let mut response = Frame::array();
    response.push_bulk(text_bytes("message"));
    response.push_bulk(channel.as_str().as_bytes_vec());
    response.push_bulk(message);
    proof {
        assert(response@->Array_0 =~= message_frame(channel@, message@)->Array_0);
    }
    response
}

/// An error reply with the text `lit`.
fn error_reply(lit: &str) -> (r: Frame)
    ensures
        r@ == FrameV::Error(lit@),
{
    Frame::Error(String::from_str(lit))
}

/// The error reply for a request whose arguments do not fit its command.
pub fn parse_error_reply(e: ParseError) -> (r: Frame)
    ensures
        r@ == FrameV::Error(error_text(e)),
{
    match e {
        ParseError::NotArray => error_reply("ERR protocol error: expected an array frame"),
        ParseError::EndOfStream => error_reply("ERR wrong number of arguments"),
        ParseError::UnexpectedFrame => error_reply("ERR protocol error: unexpected frame type"),
        ParseError::InvalidString => error_reply("ERR protocol error: invalid string"),
        ParseError::InvalidInteger => error_reply("ERR protocol error: invalid integer"),
        ParseError::Trailing => error_reply("ERR wrong number of arguments: unexpected extra argument"),
        ParseError::UnknownOption => error_reply("ERR syntax error: SET only supports the EX and PX options"),
    }
}

/// The error reply for a command that the connection does not accept.
pub fn unknown_reply(name: &String) -> (r: Frame)
    ensures
        r@ == FrameV::Error(unknown_text(name@)),
{
    let mut text = String::from_str("ERR unknown command '");
    text.append(name.as_str());
    text.append("'");
    Frame::Error(text)
}

/// The per-connection dispatch state.
pub struct Session {
    subscribed: bool,
    channels: Vec<String>,
}

impl View for Session {
    type V = SessionV;

    closed spec fn view(&self) -> SessionV {
        SessionV { subscribed: self.subscribed, channels: texts(self.channels@) }
    }
}

impl Session {
    /// No channel is listed twice.
    pub closed spec fn wf(&self) -> bool {
        texts(self.channels@).no_duplicates()
    }

    /// A connection in normal mode.
    pub fn new() -> (r: Session)
        ensures
            r.wf(),
            !r@.subscribed,
            r@.channels == Seq::<Seq<char>>::empty(),
    {
        let r = Session { subscribed: false, channels: Vec::new() };
        proof {
            assert(texts(r.channels@) =~= Seq::<Seq<char>>::empty());
        }
        r
    }

    /// Whether the connection is in subscribe mode.
    pub fn is_subscribed(&self) -> (r: bool)
        ensures
            r == self@.subscribed,
    {
        self.subscribed
    }

    /// The position of `channel` in the list.
    fn find(&self, channel: &String) -> (r: Option<usize>)
        requires
            self.wf(),
        ensures
            r matches Some(i) ==> i < self.channels@.len() && self.channels@[i as int]@ == channel@
                && texts(self.channels@).index_of(channel@) == i,
            r is None ==> !texts(self.channels@).contains(channel@),
    {
        let mut i: usize = 0;
        while i < self.channels.len()
            invariant
                i <= self.channels@.len(),
                self.wf(),
                forall|j: int| 0 <= j < i ==> #[trigger] self.channels@[j]@ != channel@,
            decreases self.channels@.len() - i,
        {
            if self.channels[i] == *channel {
                proof {
                    let t = texts(self.channels@);
                    assert(t[i as int] == channel@);
                    assert(t.contains(channel@));
                    let k = t.index_of(channel@);
                    assert(t[k] == channel@);
                    assert(t.no_duplicates());
                    assert(k == i);
                }
                return Some(i);
            }
            i = i + 1;
        }
        proof {
            let t = texts(self.channels@);
            if t.contains(channel@) {
                let k = choose|k: int| 0 <= k < t.len() && t[k] == channel@;
                assert(self.channels@[k]@ == channel@);
            }
        }
        None
    }

    /// Subscribes to each of `chs` in turn.
    fn subscribe_channels(&mut self, chs: &Vec<String>, db: &mut State, out: &mut Vec<Action>)
        requires
            old(self).wf(),
            old(db).wf(),
        ensures
            final(self).wf(),
            final(db).wf(),
            final(self).subscribed == old(self).subscribed,
            final(self)@.channels == subscribe_steps(old(self)@.channels, texts(chs@)).0,
            actions_view(final(out)@) == actions_view(old(out)@) + subscribe_steps(
                old(self)@.channels,
                texts(chs@),
            ).1,
            final(db).entries() == old(db).entries(),
            final(db).channels() == old(db).channels() + texts(chs@).to_set(),
            final(db).is_shut_down() == old(db).is_shut_down(),
    {
        let ghost all = texts(chs@);
        let ghost list0 = old(self)@.channels;
        let mut i: usize = 0;
        proof {
            assert(all.subrange(0, all.len() as int) =~= all);
            assert(all.subrange(0, 0).to_set() =~= Set::<Seq<char>>::empty());
            assert(old(db).channels() + Set::<Seq<char>>::empty() =~= old(db).channels());
            assert(actions_view(out@) =~= actions_view(old(out)@));
        }
        while i < chs.len()
            invariant
                i <= chs@.len(),
                all == texts(chs@),
                self.wf(),
                db.wf(),
                self.subscribed == old(self).subscribed,
                subscribe_steps(list0, all).0 == subscribe_steps(self@.channels, all.subrange(i as int, all.len() as int)).0,
                actions_view(old(out)@) + subscribe_steps(list0, all).1 == actions_view(out@)
                    + subscribe_steps(self@.channels, all.subrange(i as int, all.len() as int)).1,
                db.entries() == old(db).entries(),
                db.channels() == old(db).channels() + all.subrange(0, i as int).to_set(),
                db.is_shut_down() == old(db).is_shut_down(),
            decreases chs@.len() - i,
        {
            let ch = chs[i].clone();
            let ghost cur = self@.channels;
            let ghost rest = all.subrange(i as int, all.len() as int);
            let rx = db.subscribe(ch.clone());
            proof {
                assert(ch@ == all[i as int]);
            }
            match self.find(&ch) {
                Some(j) => {
                    proof {
                        assert(texts(self.channels@)[j as int] == ch@);
                    }
                },
                None => {
                    let ghost before = self.channels@;
                    self.channels.push(ch.clone());
                    proof {
                        assert(texts(self.channels@) =~= texts(before).push(ch@));
                        let t = texts(self.channels@);
                        assert forall|a: int, b: int| 0 <= a < t.len() && 0 <= b < t.len() && a != b implies t[a] != t[b] by {
                            if a == t.len() - 1 {
                                assert(texts(before)[b] != ch@);
                            } else if b == t.len() - 1 {
                                assert(texts(before)[a] != ch@);
                            }
                        }
                    }
                },
            }
            let count = self.channels.len();
            let ghost out_before = out@;
            out.push(Action::Listen(ch.clone(), rx));
            out.push(Action::Reply(create_subscribe_response_frame(ch, count)));
            proof {
                assert(rest[0] == all[i as int]);
                assert(rest.drop_first() =~= all.subrange(i + 1, all.len() as int));
                assert(self@.channels == add_channel(cur, rest[0]));
                assert(actions_view(out@) =~= actions_view(out_before) + seq![
                    ActionV::Listen(rest[0]),
                    ActionV::Reply(subscribe_frame(rest[0], self@.channels.len())),
                ]);
                let tail = subscribe_steps(self@.channels, rest.drop_first()).1;
                assert(actions_view(out_before) + (seq![
                    ActionV::Listen(rest[0]),
                    ActionV::Reply(subscribe_frame(rest[0], self@.channels.len())),
                ] + tail) =~= actions_view(out@) + tail);
                assert(all.subrange(0, i + 1).to_set() =~= all.subrange(0, i as int).to_set().insert(all[i as int])) by {
                    assert(all.subrange(0, i + 1) =~= all.subrange(0, i as int).push(all[i as int]));
                    all.subrange(0, i as int).lemma_push_to_set_commute(all[i as int]);
                }
                assert(db.channels() =~= old(db).channels() + all.subrange(0, i + 1).to_set());
            }
            i = i + 1;
        }
        proof {
            assert(all.subrange(i as int, all.len() as int) =~= Seq::<Seq<char>>::empty());
            assert(all.subrange(0, i as int) =~= all);
            assert(actions_view(out@) + Seq::<ActionV>::empty() =~= actions_view(out@));
        }
    }

    /// Unsubscribes from each of `chs` in turn.
    fn unsubscribe_channels(&mut self, chs: &Vec<String>, out: &mut Vec<Action>)
        requires
            old(self).wf(),
        ensures
            final(self).wf(),
            final(self).subscribed == old(self).subscribed,
            final(self)@.channels == unsubscribe_steps(old(self)@.channels, texts(chs@)).0,
            actions_view(final(out)@) == actions_view(old(out)@) + unsubscribe_steps(
                old(self)@.channels,
                texts(chs@),
            ).1,
    {
        let ghost all = texts(chs@);
        let ghost list0 = old(self)@.channels;
        let mut i: usize = 0;
        proof {
            assert(all.subrange(0, all.len() as int) =~= all);
            assert(actions_view(out@) =~= actions_view(old(out)@));
        }
        while i < chs.len()
            invariant
                i <= chs@.len(),
                all == texts(chs@),
                self.wf(),
                self.subscribed == old(self).subscribed,
                unsubscribe_steps(list0, all).0 == unsubscribe_steps(self@.channels, all.subrange(i as int, all.len() as int)).0,
                actions_view(old(out)@) + unsubscribe_steps(list0, all).1 == actions_view(out@)
                    + unsubscribe_steps(self@.channels, all.subrange(i as int, all.len() as int)).1,
            decreases chs@.len() - i,
        {
            let ch = chs[i].clone();
            let ghost cur = self@.channels;
            let ghost rest = all.subrange(i as int, all.len() as int);
            proof {
                assert(ch@ == all[i as int]);
            }
            match self.find(&ch) {
                Some(j) => {
                    let ghost before = self.channels@;
                    self.channels.remove(j);
                    proof {
                        assert(texts(self.channels@) =~= texts(before).remove(j as int));
                        let t = texts(self.channels@);
                        let t0 = texts(before);
                        assert forall|a: int, b: int| 0 <= a < t.len() && 0 <= b < t.len() && a != b implies t[a] != t[b] by {
                            let sa = if a < j { a } else { a + 1 };
                            let sb = if b < j { b } else { b + 1 };
                            assert(t[a] == t0[sa] && t[b] == t0[sb]);
                        }
                        assert(t0[j as int] == ch@);
                    }
                },
                None => {},
            }
            let count = self.channels.len();
            let ghost out_before = out@;
            out.push(Action::Unlisten(ch.clone()));
            out.push(Action::Reply(create_unsubscribe_response_frame(ch, count)));
            proof {
                assert(rest[0] == all[i as int]);
                assert(rest.drop_first() =~= all.subrange(i + 1, all.len() as int));
                assert(self@.channels == remove_channel(cur, rest[0]));
                assert(actions_view(out@) =~= actions_view(out_before) + seq![
                    ActionV::Unlisten(rest[0]),
                    ActionV::Reply(unsubscribe_frame(rest[0], self@.channels.len())),
                ]);
                let tail = unsubscribe_steps(self@.channels, rest.drop_first()).1;
                assert(actions_view(out_before) + (seq![
                    ActionV::Unlisten(rest[0]),
                    ActionV::Reply(unsubscribe_frame(rest[0], self@.channels.len())),
                ] + tail) =~= actions_view(out@) + tail);
            }
            i = i + 1;
        }
        proof {
            assert(all.subrange(i as int, all.len() as int) =~= Seq::<Seq<char>>::empty());
            assert(actions_view(out@) + Seq::<ActionV>::empty() =~= actions_view(out@));
        }
    }

    /// A copy of the channel list.
    fn channel_list(&self) -> (r: Vec<String>)
        ensures
            texts(r@) == self@.channels,
    {
        let mut r: Vec<String> = Vec::new();
        let mut i: usize = 0;
        while i < self.channels.len()
            invariant
                i <= self.channels@.len(),
                texts(r@) == texts(self.channels@).subrange(0, i as int),
            decreases self.channels@.len() - i,
        {
            let ghost before = r@;
            r.push(self.channels[i].clone());
            proof {
                assert(texts(r@) =~= texts(before).push(self.channels@[i as int]@));
                assert(texts(r@) =~= texts(self.channels@).subrange(0, i + 1));
            }
            i = i + 1;
        }
        proof {
            assert(texts(self.channels@).subrange(0, i as int) =~= texts(self.channels@));
        }
        r
    }

    /// Leaves subscribe mode, stopping every channel.
    fn exit_subscribe(&mut self, out: &mut Vec<Action>)
        ensures
            final(self).wf(),
            !final(self)@.subscribed,
            final(self)@.channels == Seq::<Seq<char>>::empty(),
            actions_view(final(out)@) == actions_view(old(out)@) + old(self)@.channels.map_values(
                |ch: Seq<char>| ActionV::Unlisten(ch),
            ),
    {
        let ghost all = self@.channels;
        let mut i: usize = 0;
        proof {
            assert(actions_view(out@) =~= actions_view(old(out)@) + all.subrange(0, 0).map_values(|ch: Seq<char>| ActionV::Unlisten(ch)));
        }
        while i < self.channels.len()
            invariant
                i <= self.channels@.len(),
                all == texts(self.channels@),
                all == old(self)@.channels,
                actions_view(out@) == actions_view(old(out)@) + all.subrange(0, i as int).map_values(
                    |ch: Seq<char>| ActionV::Unlisten(ch),
                ),
            decreases self.channels@.len() - i,
        {
            let ghost before = out@;
            out.push(Action::Unlisten(self.channels[i].clone()));
            proof {
                assert(actions_view(out@) =~= actions_view(before).push(ActionV::Unlisten(all[i as int])));
                assert(all.subrange(0, i + 1) =~= all.subrange(0, i as int).push(all[i as int]));
                assert(actions_view(out@) =~= actions_view(old(out)@) + all.subrange(0, i + 1).map_values(
                    |ch: Seq<char>| ActionV::Unlisten(ch),
                ));
            }
            i = i + 1;
        }
        proof {
            assert(all.subrange(0, i as int) =~= all);
        }
        self.channels = Vec::new();
        self.subscribed = false;
        proof {
            assert(texts(self.channels@) =~= Seq::<Seq<char>>::empty());
        }
    }

    /// Applies a decoded command: to the keyspace in normal mode, to the
    /// channel list in subscribe mode, where only SUBSCRIBE, UNSUBSCRIBE
    /// and EXITSUBSCRIBE are accepted.
    pub fn apply(&mut self, cmd: Command, db: &mut State, now: u64) -> (r: Vec<Action>)
        requires
            old(self).wf(),
            old(db).wf(),
        ensures
            final(self).wf(),
            final(db).wf(),
            step(old(self)@, cmd@, *old(db), *final(db), final(self)@, actions_view(r@), now),
    {
        let mut out: Vec<Action> = Vec::new();
        proof {
            assert(actions_view(out@) =~= Seq::<ActionV>::empty());
        }
        match cmd {
            Command::Subscribe(c) => {
                self.subscribe_channels(&c.channels, db, &mut out);
                self.subscribed = true;
                proof {
                    assert(actions_view(out@) =~= subscribe_steps(old(self)@.channels, texts(c.channels@)).1);
                }
                return out;
            },
            Command::Unsubscribe(c) => {
                if self.subscribed {
                    let chs = if c.channels.len() == 0 {
                        self.channel_list()
                    } else {
                        c.channels
                    };
                    self.unsubscribe_channels(&chs, &mut out);
                    proof {
                        assert(actions_view(out@) =~= unsubscribe_steps(old(self)@.channels, texts(chs@)).1);
                    }
                } else {
                    out.push(Action::Reply(error_reply("ERR unsubscribe is only accepted in subscribe mode")));
                    proof {
                        assert(actions_view(out@) =~= seq![ActionV::Reply(FrameV::Error("ERR unsubscribe is only accepted in subscribe mode"@))]);
                    }
                }
                return out;
            },
            Command::ExitSubscribe(_) => {
                if self.subscribed {
                    self.exit_subscribe(&mut out);
                    proof {
                        assert(actions_view(out@) =~= old(self)@.channels.map_values(|ch: Seq<char>| ActionV::Unlisten(ch)));
                    }
                }
                return out;
            },
            _ => {},
        }
        if self.subscribed {
            let name = cmd.get_name();
            out.push(Action::Reply(unknown_reply(&name)));
            proof {
                assert(actions_view(out@) =~= seq![ActionV::Reply(FrameV::Error(unknown_text(command_name(cmd@))))]);
            }
            return out;
        }
        let ghost cv = cmd@;
        match cmd {
            Command::Get(c) => {
                let reply = match db.get(&c.key) {
                    Some(v) => Frame::Bulk(v),
                    None => Frame::Null,
                };
                out.push(Action::Reply(reply));
                proof {
                    assert(actions_view(out@) =~= seq![ActionV::Reply(get_reply(old(db).entries(), c.key@))]);
                }
            },
            Command::SetCmd(c) => {
                let notify = db.set(c.key, c.value, c.expire, now);
                out.push(Action::Reply(Frame::Simple(String::from_str("OK"))));
                if notify {
                    out.push(Action::WakeReaper);
                }
                proof {
                    assert(actions_view(out@) =~= seq![ActionV::Reply(ok_reply())] + if notify {
                        seq![ActionV::WakeReaper]
                    } else {
                        Seq::<ActionV>::empty()
                    });
                }
            },
            Command::Del(c) => {
                db.del(&c.key);
                out.push(Action::Reply(Frame::Simple(String::from_str("OK"))));
                proof {
                    assert(actions_view(out@) =~= seq![ActionV::Reply(ok_reply())]);
                }
            },
            Command::Ping(c) => {
                let reply = match c.msg {
                    None => Frame::Simple(String::from_str("PONG")),
                    Some(msg) => Frame::Bulk(msg),
                };
                out.push(Action::Reply(reply));
                proof {
                    assert(actions_view(out@) =~= seq![ActionV::Reply(match cv {
                        CommandV::Ping { msg: None } => FrameV::Simple("PONG"@),
                        CommandV::Ping { msg: Some(m) } => FrameV::Bulk(m),
                        _ => FrameV::Null,
                    })]);
                }
            },
            Command::Publish(c) => {
                let n = db.publish(&c.channel, c.message);
                out.push(Action::Reply(Frame::Integer(n as u64)));
                proof {
                    assert(actions_view(out@) =~= seq![ActionV::Reply(FrameV::Integer(n as u64))]);
                }
            },
            Command::Save(_) => {
                out.push(Action::Snapshot(db.entry_list()));
                proof {
                    assert(actions_view(out@) =~= seq![ActionV::Snapshot(old(db).entries())]);
                }
            },
            Command::Unknown(c) => {
                out.push(Action::Reply(unknown_reply(&c.command_name)));
                proof {
                    assert(actions_view(out@) =~= seq![ActionV::Reply(FrameV::Error(unknown_text(c.command_name@)))]);
                }
            },
            _ => {},
        }
        out
    }

    /// Handles one request frame: decodes it and applies the command, or
    /// replies with the decoding error.
    pub fn on_frame(&mut self, frame: Frame, db: &mut State, now: u64) -> (r: Vec<Action>)
        requires
            old(self).wf(),
            old(db).wf(),
        ensures
            final(self).wf(),
            final(db).wf(),
            match request_spec(frame@) {
                Ok(c) => step(old(self)@, c, *old(db), *final(db), final(self)@, actions_view(r@), now),
                Err(e) => same_store(*old(db), *final(db)) && final(self)@ == old(self)@
                    && actions_view(r@) == seq![ActionV::Reply(FrameV::Error(error_text(e)))],
            },
    {
        match Command::decode_cmd_from_frame(frame) {
            Ok(cmd) => self.apply(cmd, db, now),
            Err(e) => {
                let mut out: Vec<Action> = Vec::new();
                out.push(Action::Reply(parse_error_reply(e)));
                proof {
                    assert(actions_view(out@) =~= seq![ActionV::Reply(FrameV::Error(error_text(e)))]);
                }
                out
            },
        }
    }
}

/// After SET `key` `value`, GET `key` replies with `value`, whatever the
/// expiry: eviction is left to the reaper.
pub proof fn lemma_set_then_get(
    m: Map<Seq<char>, EntryV>,
    key: Seq<char>,
    value: Seq<u8>,
    expire: Option<u64>,
    now: u64,
)
    ensures
        get_reply(spec_set(m, key, value, expire, now), key) == FrameV::Bulk(value),
{
}

/// After SET `key` `value` with a time to live of `ttl` milliseconds, once
/// the reaper has run at a time `later` past the deadline, GET `key` replies
/// Null.
pub proof fn lemma_expired_then_get(
    m: Map<Seq<char>, EntryV>,
    key: Seq<char>,
    value: Seq<u8>,
    ttl: u64,
    now: u64,
    later: u64,
)
    requires
        later >= deadline(now, ttl),
    ensures
        get_reply(spec_reap(spec_set(m, key, value, Some(ttl), now), later), key) == FrameV::Null,
{
    let m1 = spec_set(m, key, value, Some(ttl), now);
    assert(!m1.dom().filter(|k: Seq<char>| !crate::store::expired(m1[k], later)).contains(key));
}

/// After DEL `key`, GET `key` replies Null.
pub proof fn lemma_del_then_get(m: Map<Seq<char>, EntryV>, key: Seq<char>)
    ensures
        get_reply(m.remove(key), key) == FrameV::Null,
{
}

} // verus!
