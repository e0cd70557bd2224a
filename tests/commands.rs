use rustis::cmd::{Command, Get, SetCmd, Subscribe, Unsubscribe};
use rustis::frame::{write_frame, Frame};
use rustis::parse::ParseError;

fn request(parts: &[&str]) -> Frame {
    Frame::Array(parts.iter().map(|p| Frame::Bulk(p.as_bytes().to_vec())).collect())
}

fn encode(frame: &Frame) -> Vec<u8> {
    let mut out = Vec::new();
    write_frame(frame, &mut out);
    out
}

#[test]
fn get_is_decoded_in_any_case() {
    match Command::decode_cmd_from_frame(request(&["GeT", "hello"])).unwrap() {
        Command::Get(g) => assert_eq!(g.key(), "hello"),
        other => panic!("unexpected {:?}", other),
    }
}

#[test]
fn set_reads_ex_and_px() {
    match Command::decode_cmd_from_frame(request(&["SET", "k", "v", "EX", "2"])).unwrap() {
        Command::SetCmd(s) => {
            assert_eq!(s.key(), "k");
            assert_eq!(s.value(), b"v");
            assert_eq!(s.expire(), Some(2000));
        }
        other => panic!("unexpected {:?}", other),
    }
    match Command::decode_cmd_from_frame(request(&["set", "k", "v", "px", "15"])).unwrap() {
        Command::SetCmd(s) => assert_eq!(s.expire(), Some(15)),
        other => panic!("unexpected {:?}", other),
    }
    let frame = Frame::Array(vec![
        Frame::Bulk(b"SET".to_vec()),
        Frame::Bulk(b"hello".to_vec()),
        Frame::Bulk(b"world".to_vec()),
        Frame::Simple("EX".into()),
        Frame::Integer(1),
    ]);
    match Command::decode_cmd_from_frame(frame).unwrap() {
        Command::SetCmd(s) => assert_eq!(s.expire(), Some(1000)),
        other => panic!("unexpected {:?}", other),
    }
}

#[test]
fn set_rejects_bad_options() {
    assert_eq!(
        Command::decode_cmd_from_frame(request(&["SET", "k", "v", "NX"])).err(),
        Some(ParseError::UnknownOption)
    );
    assert_eq!(
        Command::decode_cmd_from_frame(request(&["SET", "k", "v", "EX", "soon"])).err(),
        Some(ParseError::InvalidInteger)
    );
    assert_eq!(
        Command::decode_cmd_from_frame(request(&["SET", "k", "v", "EX", "1x"])).err(),
        Some(ParseError::InvalidInteger)
    );
    assert_eq!(
        Command::decode_cmd_from_frame(request(&["SET", "k", "v", "PX", "+5"])).err(),
        Some(ParseError::InvalidInteger)
    );
    assert_eq!(
        Command::decode_cmd_from_frame(request(&["SET", "k", "v", "EX"])).err(),
        Some(ParseError::EndOfStream)
    );
    assert_eq!(
        Command::decode_cmd_from_frame(request(&["SET", "k", "v", "EX", "1", "x"])).err(),
        Some(ParseError::Trailing)
    );
}

#[test]
fn arity_errors() {
    assert_eq!(Command::decode_cmd_from_frame(request(&["GET"])).err(), Some(ParseError::EndOfStream));
    assert_eq!(Command::decode_cmd_from_frame(request(&["GET", "a", "b"])).err(), Some(ParseError::Trailing));
    assert_eq!(Command::decode_cmd_from_frame(request(&["DEL"])).err(), Some(ParseError::EndOfStream));
    assert_eq!(Command::decode_cmd_from_frame(request(&["PUBLISH", "c"])).err(), Some(ParseError::EndOfStream));
    assert_eq!(Command::decode_cmd_from_frame(Frame::Integer(1)).err(), Some(ParseError::NotArray));
    assert_eq!(Command::decode_cmd_from_frame(Frame::Array(vec![])).err(), Some(ParseError::EndOfStream));
    assert_eq!(
        Command::decode_cmd_from_frame(Frame::Array(vec![Frame::Integer(3)])).err(),
        Some(ParseError::UnexpectedFrame)
    );
    assert_eq!(
        Command::decode_cmd_from_frame(Frame::Array(vec![Frame::Bulk(vec![0xff])])).err(),
        Some(ParseError::InvalidString)
    );
}

#[test]
fn subscribe_needs_a_channel() {
    assert_eq!(
        Command::decode_cmd_from_frame(request(&["SUBSCRIBE"])).err(),
        Some(ParseError::EndOfStream)
    );
    match Command::decode_cmd_from_frame(request(&["UNSUBSCRIBE"])).unwrap() {
        Command::Unsubscribe(u) => assert!(u.channels.is_empty()),
        other => panic!("unexpected {:?}", other),
    }
}

#[test]
fn unknown_commands_keep_their_lowered_name() {
    match Command::decode_cmd_from_frame(request(&["FOO", "hello"])).unwrap() {
        Command::Unknown(u) => assert_eq!(u.get_name(), "foo"),
        other => panic!("unexpected {:?}", other),
    }
}

#[test]
fn ping_with_and_without_message() {
    match Command::decode_cmd_from_frame(request(&["PING"])).unwrap() {
        Command::Ping(p) => assert!(p.msg.is_none()),
        other => panic!("unexpected {:?}", other),
    }
    match Command::decode_cmd_from_frame(request(&["ping", "hi"])).unwrap() {
        Command::Ping(p) => assert_eq!(p.msg, Some(b"hi".to_vec())),
        other => panic!("unexpected {:?}", other),
    }
}

#[test]
fn commands_encode_as_requests() {
    assert_eq!(
        encode(&Get::new("hello".into()).code_get_into_frame()),
        b"*2\r\n$3\r\nget\r\n$5\r\nhello\r\n"
    );
    assert_eq!(
        encode(&SetCmd::new("k".into(), b"v".to_vec(), Some(1500)).code_set_into_frame()),
        b"*5\r\n$3\r\nset\r\n$1\r\nk\r\n$1\r\nv\r\n$2\r\npx\r\n:1500\r\n"
    );
    assert_eq!(
        encode(&Subscribe::new(vec!["a".into(), "b".into()]).code_subscribe_into_frame()),
        b"*3\r\n$9\r\nsubscribe\r\n$1\r\na\r\n$1\r\nb\r\n"
    );
    assert_eq!(
        encode(&Unsubscribe::new(vec![]).code_unsubscribe_into_frame()),
        b"*1\r\n$11\r\nunsubscribe\r\n"
    );
}

#[test]
fn encoded_commands_decode_back() {
    let frame = SetCmd::new("key".into(), b"val".to_vec(), Some(42)).code_set_into_frame();
    match Command::decode_cmd_from_frame(frame).unwrap() {
        Command::SetCmd(s) => {
            assert_eq!(s.key(), "key");
            assert_eq!(s.value(), b"val");
            assert_eq!(s.expire(), Some(42));
        }
        other => panic!("unexpected {:?}", other),
    }
}

#[test]
fn save_takes_no_arguments() {
    assert!(rustis::cmd::Save::decode_save_from_frame().is_ok());
    match Command::decode_cmd_from_frame(request(&["SAVE"])).unwrap() {
        Command::Save(_) => {}
        other => panic!("unexpected {:?}", other),
    }
    assert_eq!(
        Command::decode_cmd_from_frame(request(&["SAVE", "now"])).err(),
        Some(ParseError::Trailing)
    );
}
