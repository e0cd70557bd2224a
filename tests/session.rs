use rustis::frame::{parse_frame, write_frame};
use rustis::session::{create_message_frame, Action, Session};
use rustis::store::State;
use tokio::sync::broadcast::Receiver;

struct Client {
    session: Session,
    listening: Vec<(String, Receiver<Vec<u8>>)>,
    woken: usize,
}

impl Client {
    fn new() -> Client {
        Client { session: Session::new(), listening: Vec::new(), woken: 0 }
    }

    fn send(&mut self, db: &mut State, request: &[u8], now: u64) -> Vec<u8> {
        let (frame, len) = parse_frame(request).unwrap().expect("a whole request");
        assert_eq!(len, request.len());
        let mut out = Vec::new();
        for action in self.session.on_frame(frame, db, now) {
            match action {
                Action::Reply(f) => write_frame(&f, &mut out),
                Action::Listen(c, rx) => {
                    self.listening.retain(|(name, _)| *name != c);
                    self.listening.push((c, rx));
                }
                Action::Unlisten(c) => self.listening.retain(|(name, _)| *name != c),
                Action::Snapshot(_) => out.extend_from_slice(b"+OK\r\n"),
                Action::WakeReaper => self.woken += 1,
            }
        }
        out
    }

    fn receive(&mut self) -> Vec<u8> {
        for (channel, rx) in self.listening.iter_mut() {
            if let Ok(message) = rx.try_recv() {
                let mut out = Vec::new();
                write_frame(&create_message_frame(channel.clone(), message), &mut out);
                return out;
            }
        }
        Vec::new()
    }
}

#[test]
fn server_key_value_get_set() {
    let mut db = State::new();
    let mut c = Client::new();
    assert_eq!(c.send(&mut db, b"*2\r\n$3\r\nGET\r\n$5\r\nhello\r\n", 0), b"$-1\r\n");
    assert_eq!(c.send(&mut db, b"*3\r\n$3\r\nSET\r\n$5\r\nhello\r\n$5\r\nworld\r\n", 0), b"+OK\r\n");
    assert_eq!(c.send(&mut db, b"*2\r\n$3\r\nGET\r\n$5\r\nhello\r\n", 0), b"$5\r\nworld\r\n");
}

#[test]
fn server_key_value_timeout() {
    let mut db = State::new();
    let mut c = Client::new();
    assert_eq!(
        c.send(&mut db, b"*5\r\n$3\r\nSET\r\n$5\r\nhello\r\n$5\r\nworld\r\n+EX\r\n:1\r\n", 0),
        b"+OK\r\n"
    );
    assert_eq!(c.woken, 1);
    assert_eq!(c.send(&mut db, b"*2\r\n$3\r\nGET\r\n$5\r\nhello\r\n", 0), b"$5\r\nworld\r\n");
    assert_eq!(db.clean_expired_keys(1000), None);
    assert_eq!(c.send(&mut db, b"*2\r\n$3\r\nGET\r\n$5\r\nhello\r\n", 1000), b"$-1\r\n");
}

#[test]
fn pub_sub() {
    let mut db = State::new();
    let mut publisher = Client::new();
    assert_eq!(
        publisher.send(&mut db, b"*3\r\n$7\r\nPUBLISH\r\n$5\r\nhello\r\n$5\r\nworld\r\n", 0),
        b":0\r\n"
    );
    let mut sub1 = Client::new();
    assert_eq!(
        sub1.send(&mut db, b"*2\r\n$9\r\nSUBSCRIBE\r\n$5\r\nhello\r\n", 0),
        b"*3\r\n$9\r\nsubscribe\r\n$5\r\nhello\r\n:1\r\n"
    );
    assert_eq!(
        publisher.send(&mut db, b"*3\r\n$7\r\nPUBLISH\r\n$5\r\nhello\r\n$5\r\nworld\r\n", 0),
        b":1\r\n"
    );
    assert_eq!(sub1.receive(), b"*3\r\n$7\r\nmessage\r\n$5\r\nhello\r\n$5\r\nworld\r\n");

    let mut sub2 = Client::new();
    assert_eq!(
        sub2.send(&mut db, b"*3\r\n$9\r\nSUBSCRIBE\r\n$5\r\nhello\r\n$3\r\nfoo\r\n", 0),
        b"*3\r\n$9\r\nsubscribe\r\n$5\r\nhello\r\n:1\r\n*3\r\n$9\r\nsubscribe\r\n$3\r\nfoo\r\n:2\r\n"
    );
    assert_eq!(
        publisher.send(&mut db, b"*3\r\n$7\r\nPUBLISH\r\n$5\r\nhello\r\n$5\r\njazzy\r\n", 0),
        b":2\r\n"
    );
    assert_eq!(
        publisher.send(&mut db, b"*3\r\n$7\r\nPUBLISH\r\n$3\r\nfoo\r\n$3\r\nbar\r\n", 0),
        b":1\r\n"
    );
    assert_eq!(sub1.receive(), b"*3\r\n$7\r\nmessage\r\n$5\r\nhello\r\n$5\r\njazzy\r\n");
    assert_eq!(sub2.receive(), b"*3\r\n$7\r\nmessage\r\n$5\r\nhello\r\n$5\r\njazzy\r\n");
    assert_eq!(sub2.receive(), b"*3\r\n$7\r\nmessage\r\n$3\r\nfoo\r\n$3\r\nbar\r\n");
}

#[test]
fn manage_subscription() {
    let mut db = State::new();
    let mut sub = Client::new();
    let mut publisher = Client::new();
    assert_eq!(
        sub.send(&mut db, b"*2\r\n$9\r\nSUBSCRIBE\r\n$5\r\nhello\r\n", 0),
        b"*3\r\n$9\r\nsubscribe\r\n$5\r\nhello\r\n:1\r\n"
    );
    assert_eq!(
        sub.send(&mut db, b"*2\r\n$9\r\nSUBSCRIBE\r\n$3\r\nfoo\r\n", 0),
        b"*3\r\n$9\r\nsubscribe\r\n$3\r\nfoo\r\n:2\r\n"
    );
    assert_eq!(
        sub.send(&mut db, b"*2\r\n$11\r\nUNSUBSCRIBE\r\n$5\r\nhello\r\n", 0),
        b"*3\r\n$11\r\nunsubscribe\r\n$5\r\nhello\r\n:1\r\n"
    );
    assert_eq!(
        publisher.send(&mut db, b"*3\r\n$7\r\nPUBLISH\r\n$5\r\nhello\r\n$5\r\nworld\r\n", 0),
        b":0\r\n"
    );
    assert_eq!(
        publisher.send(&mut db, b"*3\r\n$7\r\nPUBLISH\r\n$3\r\nfoo\r\n$3\r\nbar\r\n", 0),
        b":1\r\n"
    );
    assert_eq!(sub.receive(), b"*3\r\n$7\r\nmessage\r\n$3\r\nfoo\r\n$3\r\nbar\r\n");
    assert_eq!(
        sub.send(&mut db, b"*1\r\n$11\r\nunsubscribe\r\n", 0),
        b"*3\r\n$11\r\nunsubscribe\r\n$3\r\nfoo\r\n:0\r\n"
    );
}

#[test]
fn unsubscribe_from_all_channels() {
    let mut db = State::new();
    let mut sub = Client::new();
    assert_eq!(
        sub.send(&mut db, b"*3\r\n$9\r\nSUBSCRIBE\r\n$1\r\na\r\n$1\r\nb\r\n", 0),
        b"*3\r\n$9\r\nsubscribe\r\n$1\r\na\r\n:1\r\n*3\r\n$9\r\nsubscribe\r\n$1\r\nb\r\n:2\r\n"
    );
    assert_eq!(
        sub.send(&mut db, b"*1\r\n$11\r\nUNSUBSCRIBE\r\n", 0),
        b"*3\r\n$11\r\nunsubscribe\r\n$1\r\na\r\n:1\r\n*3\r\n$11\r\nunsubscribe\r\n$1\r\nb\r\n:0\r\n"
    );
    assert!(sub.listening.is_empty());
}

#[test]
fn send_error_unknown_command() {
    let mut db = State::new();
    let mut c = Client::new();
    assert_eq!(
        c.send(&mut db, b"*2\r\n$3\r\nFOO\r\n$5\r\nhello\r\n", 0),
        b"-ERR unknown command 'foo'\r\n"
    );
}

#[test]
fn send_error_get_set_after_subscribe() {
    let mut db = State::new();
    let mut c = Client::new();
    assert_eq!(
        c.send(&mut db, b"*2\r\n$9\r\nsubscribe\r\n$5\r\nhello\r\n", 0),
        b"*3\r\n$9\r\nsubscribe\r\n$5\r\nhello\r\n:1\r\n"
    );
    assert_eq!(
        c.send(&mut db, b"*3\r\n$3\r\nSET\r\n$5\r\nhello\r\n$5\r\nworld\r\n", 0),
        b"-ERR unknown command 'set'\r\n"
    );
    assert_eq!(
        c.send(&mut db, b"*2\r\n$3\r\nGET\r\n$5\r\nhello\r\n", 0),
        b"-ERR unknown command 'get'\r\n"
    );
    assert!(c.session.is_subscribed());
}

#[test]
fn exit_subscribe_returns_to_normal_mode() {
    let mut db = State::new();
    let mut c = Client::new();
    c.send(&mut db, b"*2\r\n$9\r\nSUBSCRIBE\r\n$1\r\na\r\n", 0);
    assert_eq!(c.send(&mut db, b"*1\r\n$13\r\nEXITSUBSCRIBE\r\n", 0), b"");
    assert!(!c.session.is_subscribed());
    assert!(c.listening.is_empty());
    assert_eq!(c.send(&mut db, b"*1\r\n$4\r\nPING\r\n", 0), b"+PONG\r\n");
}

#[test]
fn subscribe_without_channels_is_an_error_reply() {
    let mut db = State::new();
    let mut c = Client::new();
    assert_eq!(
        c.send(&mut db, b"*1\r\n$9\r\nSUBSCRIBE\r\n", 0),
        b"-ERR wrong number of arguments\r\n"
    );
    assert!(!c.session.is_subscribed());
}

#[test]
fn ping_pong_without_message() {
    let mut db = State::new();
    let mut c = Client::new();
    assert_eq!(c.send(&mut db, b"*1\r\n$4\r\nPING\r\n", 0), b"+PONG\r\n");
}

#[test]
fn ping_pong_with_message() {
    let mut db = State::new();
    let mut c = Client::new();
    assert_eq!(
        c.send(&mut db, b"*2\r\n$4\r\nPING\r\n$12\r\nHello Rustis\r\n", 0),
        b"$12\r\nHello Rustis\r\n"
    );
}

#[test]
fn del_then_get_is_null() {
    let mut db = State::new();
    let mut c = Client::new();
    assert_eq!(c.send(&mut db, b"*2\r\n$3\r\nDEL\r\n$5\r\nhello\r\n", 0), b"+OK\r\n");
    c.send(&mut db, b"*3\r\n$3\r\nSET\r\n$5\r\nhello\r\n$5\r\nworld\r\n", 0);
    assert_eq!(c.send(&mut db, b"*2\r\n$3\r\nDEL\r\n$5\r\nhello\r\n", 0), b"+OK\r\n");
    assert_eq!(c.send(&mut db, b"*2\r\n$3\r\nGET\r\n$5\r\nhello\r\n", 0), b"$-1\r\n");
}

#[test]
fn unsubscribe_outside_subscribe_mode_is_an_error() {
    let mut db = State::new();
    let mut c = Client::new();
    assert_eq!(
        c.send(&mut db, b"*1\r\n$11\r\nUNSUBSCRIBE\r\n", 0),
        b"-ERR unsubscribe is only accepted in subscribe mode\r\n"
    );
}

#[test]
fn save_hands_out_a_snapshot() {
    let mut db = State::new();
    db.set("k".to_string(), b"v".to_vec(), None, 0);
    let mut session = Session::new();
    let (frame, _) = parse_frame(b"*1\r\n$4\r\nSAVE\r\n").unwrap().unwrap();
    let actions = session.on_frame(frame, &mut db, 0);
    assert_eq!(actions.len(), 1);
    match &actions[0] {
        Action::Snapshot(records) => {
            assert_eq!(records.len(), 1);
            assert_eq!(records[0].0, "k");
            assert_eq!(records[0].1, b"v".to_vec());
            assert_eq!(records[0].2, None);
        }
        _ => panic!("expected a snapshot"),
    }
}
