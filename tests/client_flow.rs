use rustis::cmd::{Command, Get, Ping, Publish, SetCmd, Subscribe, Unsubscribe};
use rustis::frame::{parse_frame, write_frame, Frame};
use rustis::reply::{
    get_result, message_of, ping_result, publish_result, set_result, subscribe_confirmed,
    unsubscribe_confirmed,
};
use rustis::session::{create_message_frame, Action, Session};
use rustis::store::State;
use tokio::sync::broadcast::Receiver;

/// Sends `request` over the wire format to a session and returns its
/// replies, keeping the receivers it opens.
fn exchange(
    session: &mut Session,
    db: &mut State,
    request: Frame,
    now: u64,
    listening: &mut Vec<(String, Receiver<Vec<u8>>)>,
) -> Vec<Frame> {
    let mut bytes = Vec::new();
    write_frame(&request, &mut bytes);
    let (frame, len) = parse_frame(&bytes).unwrap().unwrap();
    assert_eq!(len, bytes.len());
    let mut replies = Vec::new();
    for action in session.on_frame(frame, db, now) {
        match action {
            Action::Reply(f) => replies.push(f),
            Action::Listen(c, rx) => listening.push((c, rx)),
            Action::Unlisten(c) => listening.retain(|(name, _)| *name != c),
            _ => {}
        }
    }
    replies
}

fn next_message(listening: &mut Vec<(String, Receiver<Vec<u8>>)>) -> Option<(String, Vec<u8>)> {
    for (channel, rx) in listening.iter_mut() {
        if let Ok(m) = rx.try_recv() {
            return message_of(create_message_frame(channel.clone(), m));
        }
    }
    None
}

#[test]
fn test_ping() {
    let request = Ping::new(None).code_ping_into_frame();
    match Command::decode_cmd_from_frame(request).unwrap() {
        Command::Ping(p) => assert!(p.msg.is_none()),
        other => panic!("unexpected {:?}", other),
    }
    assert_eq!(ping_result(Frame::Simple("PONG".to_string())).unwrap(), b"PONG".to_vec());
}

#[test]
fn test_get() {
    let request = Get::new("test_key".into()).code_get_into_frame();
    match Command::decode_cmd_from_frame(request).unwrap() {
        Command::Get(g) => assert_eq!(g.key(), "test_key"),
        other => panic!("unexpected {:?}", other),
    }
    assert_eq!(
        get_result(Frame::Bulk(b"test_value".to_vec())).unwrap(),
        Some(b"test_value".to_vec())
    );
}

#[test]
fn test_set() {
    let request = SetCmd::new("test_key".into(), b"test_value".to_vec(), None).code_set_into_frame();
    match Command::decode_cmd_from_frame(request).unwrap() {
        Command::SetCmd(s) => {
            assert_eq!(s.key(), "test_key");
            assert_eq!(s.value(), b"test_value");
        }
        other => panic!("unexpected {:?}", other),
    }
    assert!(set_result(Frame::Simple("OK".to_string())).is_ok());
}

#[test]
fn test_publish() {
    let request = Publish::new("test_channel".into(), b"test_message".to_vec()).code_publish_into_frame();
    match Command::decode_cmd_from_frame(request).unwrap() {
        Command::Publish(p) => {
            assert_eq!(p.channel, "test_channel");
            assert_eq!(p.message, b"test_message".to_vec());
        }
        other => panic!("unexpected {:?}", other),
    }
    assert_eq!(publish_result(Frame::Integer(1)).unwrap(), 1);
}

#[test]
fn test_subscribe() {
    let mut db = State::new();
    let mut session = Session::new();
    let mut listening = Vec::new();
    let request = Subscribe::new(vec!["test_channel".into()]).code_subscribe_into_frame();
    let replies = exchange(&mut session, &mut db, request, 0, &mut listening);
    assert_eq!(replies.len(), 1);
    assert!(subscribe_confirmed(&replies[0], &"test_channel".to_string()));
}

#[test]
fn client_key_value_get_set() {
    let mut db = State::new();
    let mut session = Session::new();
    let mut listening = Vec::new();
    let set = SetCmd::new("hello".into(), b"rustis".to_vec(), None).code_set_into_frame();
    let mut replies = exchange(&mut session, &mut db, set, 0, &mut listening);
    assert!(set_result(replies.remove(0)).is_ok());
    let get = Get::new("hello".into()).code_get_into_frame();
    let mut replies = exchange(&mut session, &mut db, get, 0, &mut listening);
    assert_eq!(get_result(replies.remove(0)).unwrap(), Some(b"rustis".to_vec()));
}

#[test]
fn client_key_value_timeout() {
    let mut db = State::new();
    let mut session = Session::new();
    let mut listening = Vec::new();
    let set = SetCmd::new("hello".into(), b"rustis".to_vec(), Some(1000)).code_set_into_frame();
    let mut replies = exchange(&mut session, &mut db, set, 0, &mut listening);
    assert!(set_result(replies.remove(0)).is_ok());
    db.clean_expired_keys(1000);
    let get = Get::new("hello".into()).code_get_into_frame();
    let mut replies = exchange(&mut session, &mut db, get, 1000, &mut listening);
    assert_eq!(get_result(replies.remove(0)).unwrap(), None);
}

#[test]
fn receive_message_multiple_subscribed_channels() {
    let mut db = State::new();
    let mut subscriber = Session::new();
    let mut publisher = Session::new();
    let mut listening = Vec::new();
    let mut unused = Vec::new();
    let request = Subscribe::new(vec!["hello".into(), "rustis".into()]).code_subscribe_into_frame();
    let replies = exchange(&mut subscriber, &mut db, request, 0, &mut listening);
    assert!(subscribe_confirmed(&replies[0], &"hello".to_string()));
    assert!(subscribe_confirmed(&replies[1], &"rustis".to_string()));

    let publish = Publish::new("hello".into(), b"rustis".to_vec()).code_publish_into_frame();
    let mut replies = exchange(&mut publisher, &mut db, publish, 0, &mut unused);
    assert_eq!(publish_result(replies.remove(0)).unwrap(), 1);
    let (channel, content) = next_message(&mut listening).unwrap();
    assert_eq!(channel, "hello");
    assert_eq!(content, b"rustis".to_vec());

    let publish = Publish::new("rustis".into(), b"hello".to_vec()).code_publish_into_frame();
    exchange(&mut publisher, &mut db, publish, 0, &mut unused);
    let (channel, content) = next_message(&mut listening).unwrap();
    assert_eq!(channel, "rustis");
    assert_eq!(content, b"hello".to_vec());
}

#[test]
fn unsubscribe_all_through_the_client() {
    let mut db = State::new();
    let mut session = Session::new();
    let mut listening = Vec::new();
    let mut channels = vec!["hello".to_string(), "world".to_string()];
    let request = Subscribe::new(channels.clone()).code_subscribe_into_frame();
    exchange(&mut session, &mut db, request, 0, &mut listening);
    let request = Unsubscribe::new(vec![]).code_unsubscribe_into_frame();
    let replies = exchange(&mut session, &mut db, request, 0, &mut listening);
    assert_eq!(replies.len(), 2);
    for reply in &replies {
        assert!(unsubscribe_confirmed(&mut channels, reply));
    }
    assert!(channels.is_empty());
    assert!(listening.is_empty());
}
