use rustis::frame::{get_line, parse_frame, skip, write_decimal, write_frame, write_value, Frame, FrameError};

fn encode(frame: &Frame) -> Vec<u8> {
    let mut out = Vec::new();
    write_frame(frame, &mut out);
    out
}

fn decode(bytes: &[u8]) -> Result<Option<(Frame, usize)>, FrameError> {
    parse_frame(bytes)
}

#[test]
fn test_write_decimal() {
    let mut out = Vec::new();
    write_decimal(&mut out, 12345);
    assert_eq!(out, b"12345\r\n");
}

#[test]
fn test_write_value() {
    let mut out = Vec::new();
    write_value(&Frame::Simple("OK".into()), &mut out);
    write_value(&Frame::Error("ERR".into()), &mut out);
    write_value(&Frame::Integer(12345), &mut out);
    write_value(&Frame::Null, &mut out);
    write_value(&Frame::Bulk(b"bulk data".to_vec()), &mut out);
    let expected = b"+OK\r\n-ERR\r\n:12345\r\n$-1\r\n$9\r\nbulk data\r\n";
    assert_eq!(out, expected);
}

#[test]
fn test_read_and_write_frame() {
    let bytes = encode(&Frame::Array(vec![
        Frame::Simple("OK".into()),
        Frame::Error("ERR".into()),
        Frame::Integer(12345),
        Frame::Null,
        Frame::Bulk(b"bulk data".to_vec()),
    ]));
    let (frame, len) = decode(&bytes).unwrap().expect("a whole frame");
    assert_eq!(len, bytes.len());
    match frame {
        Frame::Array(val) => {
            assert_eq!(val.len(), 5);
            match &val[0] {
                Frame::Simple(val) => assert_eq!(val, "OK"),
                _ => panic!("not a simple frame"),
            }
            match &val[1] {
                Frame::Error(val) => assert_eq!(val, "ERR"),
                _ => panic!("not an error frame"),
            }
            match &val[2] {
                Frame::Integer(val) => assert_eq!(*val, 12345),
                _ => panic!("not an integer frame"),
            }
            match &val[3] {
                Frame::Null => (),
                _ => panic!("not a null frame"),
            }
            match &val[4] {
                Frame::Bulk(val) => assert_eq!(val, b"bulk data"),
                _ => panic!("not a bulk frame"),
            }
        }
        _ => panic!("not an array frame"),
    }
}

#[test]
fn empty_array_decodes_and_reencodes() {
    let bytes = encode(&Frame::array());
    assert_eq!(bytes, b"*0\r\n");
    let (frame, len) = decode(&bytes).unwrap().unwrap();
    assert_eq!(len, 4);
    match &frame {
        Frame::Array(items) => assert!(items.is_empty()),
        _ => panic!("not an array frame"),
    }
    assert_eq!(encode(&frame), b"*0\r\n");
}

#[test]
fn zero_length_bulk_encoding() {
    assert_eq!(encode(&Frame::Bulk(Vec::new())), b"$0\r\n\r\n");
}

#[test]
fn null_differs_from_empty_bulk() {
    assert_eq!(encode(&Frame::Null), b"$-1\r\n");
    assert_ne!(encode(&Frame::Null), encode(&Frame::Bulk(Vec::new())));
    match decode(b"$-1\r\n").unwrap().unwrap().0 {
        Frame::Null => (),
        _ => panic!("expected null"),
    }
    match decode(b"$0\r\n\r\n").unwrap().unwrap().0 {
        Frame::Bulk(data) => assert!(data.is_empty()),
        _ => panic!("expected an empty bulk"),
    }
}

#[test]
fn nested_array_round_trip() {
    let frame = Frame::Array(vec![
        Frame::Bulk(b"a\r\nb".to_vec()),
        Frame::Array(vec![Frame::Integer(0), Frame::Simple("héllo".into())]),
        Frame::Array(vec![]),
    ]);
    let bytes = encode(&frame);
    let mut extended = bytes.clone();
    extended.extend_from_slice(b"+next\r\n");
    let (back, len) = decode(&extended).unwrap().unwrap();
    assert_eq!(len, bytes.len());
    assert_eq!(encode(&back), bytes);
}

#[test]
fn incomplete_frames_ask_for_more() {
    assert_eq!(decode(b"").unwrap().map(|p| p.1), None);
    assert_eq!(decode(b"+OK").unwrap().map(|p| p.1), None);
    assert_eq!(decode(b"$5\r\nhel").unwrap().map(|p| p.1), None);
    assert_eq!(decode(b"*2\r\n:1\r\n").unwrap().map(|p| p.1), None);
}

#[test]
fn malformed_frames_are_invalid() {
    assert_eq!(decode(b"!x\r\n").err(), Some(FrameError::Invalid));
    assert_eq!(decode(b":abc\r\n").err(), Some(FrameError::Invalid));
    assert_eq!(decode(b"+\xff\xfe\r\n").err(), Some(FrameError::Invalid));
    assert_eq!(decode(b"$-2\r\n").err(), Some(FrameError::Invalid));
}

#[test]
fn numbers_must_be_plain_decimal() {
    match decode(b":18446744073709551615\r\n").unwrap().unwrap().0 {
        Frame::Integer(n) => assert_eq!(n, u64::MAX),
        _ => panic!("expected an integer"),
    }
    match decode(b":007\r\n").unwrap().unwrap().0 {
        Frame::Integer(n) => assert_eq!(n, 7),
        _ => panic!("expected an integer"),
    }
    assert_eq!(decode(b":12abc\r\n").err(), Some(FrameError::Invalid));
    assert_eq!(decode(b":12x\r\n").err(), Some(FrameError::Invalid));
    assert_eq!(decode(b":+7\r\n").err(), Some(FrameError::Invalid));
    assert_eq!(decode(b":-0\r\n").err(), Some(FrameError::Invalid));
    assert_eq!(decode(b":-5\r\n").err(), Some(FrameError::Invalid));
    assert_eq!(decode(b":\r\n").err(), Some(FrameError::Invalid));
    assert_eq!(decode(b":18446744073709551616\r\n").err(), Some(FrameError::Invalid));
    assert_eq!(decode(b"$1x\r\na\r\n").err(), Some(FrameError::Invalid));
    assert_eq!(decode(b"*1x\r\n:1\r\n").err(), Some(FrameError::Invalid));
    assert_eq!(decode(b"$ab\r\n").err(), Some(FrameError::Invalid));
}

#[test]
fn frame_builders_push_items() {
    let mut frame = Frame::array();
    frame.push_bulk(b"x".to_vec());
    frame.push_int(3);
    assert_eq!(encode(&frame), b"*2\r\n$1\r\nx\r\n:3\r\n");
}

#[test]
fn check_and_parse_walk_a_cursor() {
    let buf = b"+OK\r\n:5\r\n";
    let mut pos = 0usize;
    Frame::check(buf, &mut pos).unwrap();
    assert_eq!(pos, 5);
    let mut pos2 = 5usize;
    match Frame::parse(buf, &mut pos2).unwrap() {
        Frame::Integer(n) => assert_eq!(n, 5),
        _ => panic!("expected an integer"),
    }
    assert_eq!(pos2, buf.len());
}

#[test]
fn null_length_must_be_minus_one() {
    let mut pos = 0usize;
    assert_eq!(Frame::check(b"$-5\r\n", &mut pos).err(), Some(FrameError::Invalid));
    let mut pos = 0usize;
    assert_eq!(Frame::check(b"$-1x\r\n", &mut pos).err(), Some(FrameError::Invalid));
    let mut pos = 0usize;
    assert_eq!(Frame::check(b"$-1", &mut pos).err(), Some(FrameError::Incomplete));
    let mut pos = 0usize;
    Frame::check(b"$-1\r\n", &mut pos).unwrap();
    assert_eq!(pos, 5);
}

#[test]
fn cursor_helpers_past_the_end() {
    let buf = b"ab\r\n";
    let mut pos = 9usize;
    assert_eq!(get_line(buf, &mut pos).err(), Some(FrameError::Incomplete));
    assert_eq!(pos, 9);
    assert_eq!(skip(buf, &mut pos, 1).err(), Some(FrameError::Incomplete));
    assert_eq!(pos, 9);
    let mut pos = 0usize;
    assert_eq!(get_line(buf, &mut pos).unwrap(), 2);
    assert_eq!(pos, 4);
    let mut pos = 1usize;
    skip(buf, &mut pos, 3).unwrap();
    assert_eq!(pos, 4);
    assert_eq!(skip(buf, &mut pos, 1).err(), Some(FrameError::Incomplete));
}
