use rustis::frame::Frame;
use rustis::reply::{
    frame_is_text, get_result, message_of, ping_result, publish_result, set_result,
    subscribe_confirmed, unsubscribe_confirmed,
};
use rustis::runtime::{backoff_after_failure, reaper_wait, ReaperWait};
use rustis::session::{create_message_frame, create_subscribe_response_frame, create_unsubscribe_response_frame};

#[test]
fn ping_replies() {
    assert_eq!(ping_result(Frame::Simple("PONG".into())).unwrap(), b"PONG".to_vec());
    assert_eq!(ping_result(Frame::Bulk(b"Hello Rustis".to_vec())).unwrap(), b"Hello Rustis".to_vec());
    assert!(ping_result(Frame::Null).is_err());
}

#[test]
fn get_replies() {
    assert_eq!(get_result(Frame::Bulk(b"rustis".to_vec())).unwrap(), Some(b"rustis".to_vec()));
    assert_eq!(get_result(Frame::Null).unwrap(), None);
    assert!(get_result(Frame::Integer(1)).is_err());
}

#[test]
fn set_replies() {
    assert!(set_result(Frame::Simple("OK".into())).is_ok());
    assert!(set_result(Frame::Simple("ok".into())).is_ok());
    assert!(set_result(Frame::Simple("NO".into())).is_err());
    assert!(set_result(Frame::Bulk(b"OK".to_vec())).is_err());
}

#[test]
fn publish_replies() {
    assert_eq!(publish_result(Frame::Integer(2)).unwrap(), 2);
    assert!(publish_result(Frame::Simple("2".into())).is_err());
}

#[test]
fn text_frames() {
    assert!(frame_is_text(&Frame::Simple("message".into()), "message"));
    assert!(frame_is_text(&Frame::Bulk(b"message".to_vec()), "message"));
    assert!(!frame_is_text(&Frame::Bulk(b"messages".to_vec()), "message"));
    assert!(!frame_is_text(&Frame::Integer(0), "0"));
}

#[test]
fn subscribe_confirmations() {
    let reply = create_subscribe_response_frame("hello".into(), 1);
    assert!(subscribe_confirmed(&reply, &"hello".to_string()));
    assert!(!subscribe_confirmed(&reply, &"world".to_string()));
    assert!(!subscribe_confirmed(&Frame::Array(vec![]), &"hello".to_string()));
}

#[test]
fn receive_message_subscribed_channel() {
    let frame = create_message_frame("hello".into(), b"rustis".to_vec());
    let (channel, content) = message_of(frame).unwrap();
    assert_eq!(channel, "hello");
    assert_eq!(content, b"rustis".to_vec());
    assert!(message_of(create_subscribe_response_frame("hello".into(), 1)).is_none());
}

#[test]
fn unsubscribes_from_channels() {
    let mut channels = vec!["hello".to_string(), "world".to_string()];
    assert!(unsubscribe_confirmed(&mut channels, &create_unsubscribe_response_frame("hello".into(), 1)));
    assert_eq!(channels, vec!["world".to_string()]);
    assert!(!unsubscribe_confirmed(&mut channels, &create_unsubscribe_response_frame("nope".into(), 1)));
    assert_eq!(channels, vec!["world".to_string()]);
    assert!(unsubscribe_confirmed(&mut channels, &create_unsubscribe_response_frame("world".into(), 0)));
    assert!(channels.is_empty());
    assert!(!unsubscribe_confirmed(&mut channels, &create_unsubscribe_response_frame("world".into(), 0)));
}

#[test]
fn reaper_waits() {
    assert_eq!(reaper_wait(Some(1500), 1000, false), ReaperWait::Sleep(500));
    assert_eq!(reaper_wait(Some(900), 1000, false), ReaperWait::Sleep(0));
    assert_eq!(reaper_wait(None, 1000, false), ReaperWait::UntilNotified);
    assert_eq!(reaper_wait(Some(1500), 1000, true), ReaperWait::Exit);
}

#[test]
fn accept_backoff_doubles_then_gives_up() {
    let mut backoff = 1;
    let mut waits = Vec::new();
    while let Some((wait, next)) = backoff_after_failure(backoff) {
        waits.push(wait);
        backoff = next;
    }
    assert_eq!(waits, vec![1, 2, 4, 8, 16, 32, 64]);
    assert_eq!(backoff, 128);
}
