//! Command reading, replies, and the subscription set.

use mini_redis::cmd::{
    apply_get, apply_ping, apply_set, subscribe_ack, unknown_reply, unsubscribe_ack,
    Command, Subscriptions,
};
use mini_redis::db::State;
use mini_redis::frame::Frame;
use mini_redis::num::{duration_from_ms_str, format_u64, parse_u64};
use mini_redis::parse::{Parse, ParseError};
use mini_redis::server::{accept_retry, MAX_CONNECTIONS};
use mini_redis::shutdown::Shutdown;

fn bulk(s: &[u8]) -> Frame {
    Frame::Bulk(s.to_vec())
}

fn req(parts: Vec<Frame>) -> Frame {
    Frame::Array(parts)
}

#[test]
fn read_get() {
    let cmd = Command::from_frame(req(vec![bulk(b"GET"), bulk(b"hello")])).unwrap();
    match cmd {
        Command::Get { key } => assert_eq!(key, b"hello".to_vec()),
        _ => panic!("not GET"),
    }
}

#[test]
fn command_names_ignore_case() {
    let cmd = Command::from_frame(req(vec![bulk(b"GeT"), bulk(b"k")])).unwrap();
    assert!(matches!(cmd, Command::Get { .. }));
    let cmd = Command::from_frame(req(vec![Frame::Simple(b"ping".to_vec())])).unwrap();
    assert!(matches!(cmd, Command::Ping { msg: None }));
}

#[test]
fn read_set_plain() {
    let cmd = Command::from_frame(req(vec![bulk(b"SET"), bulk(b"k"), bulk(b"v")])).unwrap();
    match cmd {
        Command::Put { key, value, expire_ms } => {
            assert_eq!(key, b"k".to_vec());
            assert_eq!(value, b"v".to_vec());
            assert_eq!(expire_ms, None);
        }
        _ => panic!("not SET"),
    }
}

#[test]
fn read_set_ex_scales_to_milliseconds() {
    let cmd = Command::from_frame(req(vec![
        bulk(b"SET"),
        bulk(b"k"),
        bulk(b"v"),
        bulk(b"EX"),
        Frame::Integer(2),
    ]))
    .unwrap();
    match cmd {
        Command::Put { expire_ms, .. } => assert_eq!(expire_ms, Some(2000)),
        _ => panic!("not SET"),
    }
}

#[test]
fn read_set_px() {
    let cmd = Command::from_frame(req(vec![
        bulk(b"SET"),
        bulk(b"k"),
        bulk(b"v"),
        bulk(b"px"),
        bulk(b"100"),
    ]))
    .unwrap();
    match cmd {
        Command::Put { expire_ms, .. } => assert_eq!(expire_ms, Some(100)),
        _ => panic!("not SET"),
    }
}

#[test]
fn set_rejects_zero_ttl_and_junk() {
    assert!(Command::from_frame(req(vec![
        bulk(b"SET"),
        bulk(b"k"),
        bulk(b"v"),
        bulk(b"PX"),
        Frame::Integer(0),
    ]))
    .is_err());
    assert!(Command::from_frame(req(vec![
        bulk(b"SET"),
        bulk(b"k"),
        bulk(b"v"),
        bulk(b"XX"),
        Frame::Integer(5),
    ]))
    .is_err());
    assert!(Command::from_frame(req(vec![
        bulk(b"SET"),
        bulk(b"k"),
        bulk(b"v"),
        bulk(b"PX"),
        Frame::Integer(5),
        bulk(b"extra"),
    ]))
    .is_err());
    assert!(Command::from_frame(req(vec![bulk(b"SET"), bulk(b"k")])).is_err());
}

#[test]
fn read_publish_subscribe_unsubscribe() {
    let cmd =
        Command::from_frame(req(vec![bulk(b"PUBLISH"), bulk(b"ch1"), bulk(b"hi")])).unwrap();
    match cmd {
        Command::Publish { channel, message } => {
            assert_eq!(channel, b"ch1".to_vec());
            assert_eq!(message, b"hi".to_vec());
        }
        _ => panic!("not PUBLISH"),
    }
    let cmd =
        Command::from_frame(req(vec![bulk(b"SUBSCRIBE"), bulk(b"a"), bulk(b"b")])).unwrap();
    match cmd {
        Command::Subscribe { channels } => {
            assert_eq!(channels, vec![b"a".to_vec(), b"b".to_vec()]);
        }
        _ => panic!("not SUBSCRIBE"),
    }
    // subscribing to nothing is a protocol violation
    assert!(Command::from_frame(req(vec![bulk(b"SUBSCRIBE")])).is_err());
    // unsubscribing from nothing means: from everything; the name is
    // kept as the client spelled it
    let cmd = Command::from_frame(req(vec![bulk(b"UnSubScribe")])).unwrap();
    match cmd {
        Command::Unsubscribe { name, channels } => {
            assert_eq!(name, b"UnSubScribe".to_vec());
            assert!(channels.is_empty());
        }
        _ => panic!("not UNSUBSCRIBE"),
    }
}

#[test]
fn text_tokens_must_be_utf8() {
    // a command name that is not UTF-8 is a protocol violation
    assert!(Command::from_frame(req(vec![bulk(b"\xffGET"), bulk(b"k")])).is_err());
    // a GET key must be text
    assert!(Command::from_frame(req(vec![bulk(b"GET"), bulk(b"\xff\xfe")])).is_err());
    // a channel must be text
    assert!(Command::from_frame(req(vec![bulk(b"SUBSCRIBE"), bulk(b"\xff")])).is_err());
    // a SET value is raw bytes: anything goes
    let cmd = Command::from_frame(req(vec![bulk(b"SET"), bulk(b"k"), bulk(b"\xff\x00")]))
        .unwrap();
    match cmd {
        Command::Put { value, .. } => assert_eq!(value, b"\xff\x00".to_vec()),
        _ => panic!("not SET"),
    }
    // a PING message is raw bytes too
    let cmd = Command::from_frame(req(vec![bulk(b"PING"), bulk(b"\xff")])).unwrap();
    match cmd {
        Command::Ping { msg } => assert_eq!(msg, Some(b"\xff".to_vec())),
        _ => panic!("not PING"),
    }
    // multi-byte UTF-8 text is fine
    let cmd = Command::from_frame(req(vec![bulk(b"GET"), bulk("clé".as_bytes())])).unwrap();
    match cmd {
        Command::Get { key } => assert_eq!(key, "clé".as_bytes().to_vec()),
        _ => panic!("not GET"),
    }
}

#[test]
fn read_ping() {
    let cmd = Command::from_frame(req(vec![bulk(b"PING")])).unwrap();
    assert!(matches!(cmd, Command::Ping { msg: None }));
    let cmd = Command::from_frame(req(vec![bulk(b"PING"), bulk(b"hey")])).unwrap();
    match cmd {
        Command::Ping { msg } => assert_eq!(msg, Some(b"hey".to_vec())),
        _ => panic!("not PING"),
    }
}

#[test]
fn read_unknown_keeps_the_name() {
    let cmd = Command::from_frame(req(vec![bulk(b"FLUSHALL"), bulk(b"now")])).unwrap();
    match cmd {
        Command::Unknown { name } => assert_eq!(name, b"FLUSHALL".to_vec()),
        _ => panic!("not Unknown"),
    }
}

#[test]
fn read_refuses_non_array_and_bad_tokens() {
    assert!(Command::from_frame(Frame::Integer(5)).is_err());
    assert!(Command::from_frame(req(vec![])).is_err());
    assert!(Command::from_frame(req(vec![Frame::Integer(5)])).is_err());
    assert!(Command::from_frame(req(vec![bulk(b"GET"), Frame::Integer(5)])).is_err());
}

#[test]
fn frame_text_comparison() {
    assert!(Frame::Simple(b"OK".to_vec()).is_text(b"OK"));
    assert!(Frame::Bulk(b"OK".to_vec()).is_text(b"OK"));
    assert!(!Frame::Simple(b"OK".to_vec()).is_text(b"ok"));
    assert!(!Frame::Integer(1).is_text(b"1"));
}

#[test]
fn replies() {
    match unknown_reply(b"foo") {
        Frame::Error(msg) => assert_eq!(msg, b"ERR unknown command 'foo'".to_vec()),
        _ => panic!("not an error frame"),
    }
    match apply_ping(None) {
        Frame::Simple(s) => assert_eq!(s, b"PONG".to_vec()),
        _ => panic!("not PONG"),
    }
    match apply_ping(Some(b"x".to_vec())) {
        Frame::Bulk(s) => assert_eq!(s, b"x".to_vec()),
        _ => panic!("not a byte string"),
    }
}

#[test]
fn apply_set_then_get() {
    let mut st = State::new();
    let (reply, notify) = apply_set(&mut st, b"hello".to_vec(), b"world".to_vec(), None, 0);
    assert!(matches!(reply, Frame::Simple(ref s) if s == &b"OK".to_vec()));
    assert!(!notify);
    match apply_get(&st, b"hello") {
        Frame::Bulk(d) => assert_eq!(d, b"world".to_vec()),
        _ => panic!("not the value"),
    }
    assert!(matches!(apply_get(&st, b"missing"), Frame::Null));
}

#[test]
fn apply_set_with_ttl_wakes_reaper() {
    let mut st = State::new();
    let (_, notify) = apply_set(&mut st, b"k".to_vec(), b"v".to_vec(), Some(100), 7);
    assert!(notify);
    assert_eq!(st.next_expiration(), Some(107));
}

#[test]
fn subscription_set_machine() {
    let mut s = Subscriptions::new();
    assert_eq!(s.len(), 0);
    assert!(s.add(b"ch1".to_vec()));
    assert!(s.add(b"ch2".to_vec()));
    assert_eq!(s.len(), 2);
    // duplicates do not resubscribe
    assert!(!s.add(b"ch1".to_vec()));
    assert_eq!(s.len(), 2);
    assert!(s.contains(b"ch1"));
    assert!(!s.contains(b"ch3"));
    // removing an unsubscribed channel changes nothing
    assert!(!s.remove(b"ch3"));
    assert_eq!(s.len(), 2);
    assert!(s.remove(b"ch1"));
    assert_eq!(s.len(), 1);
    assert!(!s.contains(b"ch1"));
    assert!(s.remove(b"ch2"));
    assert_eq!(s.len(), 0);
}

#[test]
fn ack_frames() {
    match subscribe_ack(b"ch1", 1) {
        Frame::Array(parts) => {
            assert!(matches!(parts[0], Frame::Bulk(ref w) if w == &b"subscribe".to_vec()));
            assert!(matches!(parts[1], Frame::Bulk(ref c) if c == &b"ch1".to_vec()));
            assert!(matches!(parts[2], Frame::Integer(1)));
        }
        _ => panic!("not an array"),
    }
    match unsubscribe_ack(b"ch1", 0) {
        Frame::Array(parts) => {
            assert!(matches!(parts[0], Frame::Bulk(ref w) if w == &b"unsubscribe".to_vec()));
            assert!(matches!(parts[2], Frame::Integer(0)));
        }
        _ => panic!("not an array"),
    }
}

#[test]
fn cursor_text_is_utf8_bytes_are_raw() {
    let mut p = Parse::new(req(vec![bulk(b"\xff"), bulk(b"\xff")])).unwrap();
    assert!(matches!(p.next_string(), Err(ParseError::BadText)));
    assert_eq!(p.next_bytes().unwrap(), b"\xff".to_vec());
    // a simple string passes as it stands: the wire already validated it
    let mut p = Parse::new(req(vec![Frame::Simple(b"ok".to_vec())])).unwrap();
    assert_eq!(p.next_string().unwrap(), b"ok".to_vec());
}

#[test]
fn parse_cursor() {
    let p = Parse::new(Frame::Integer(1));
    assert!(matches!(p, Err(ParseError::NotAnArray)));
    let mut p = Parse::new(req(vec![bulk(b"a"), Frame::Integer(42), bulk(b"99")])).unwrap();
    assert_eq!(p.next_string().unwrap(), b"a".to_vec());
    assert_eq!(p.next_int().unwrap(), 42);
    assert_eq!(p.next_int().unwrap(), 99);
    assert!(matches!(p.next_bytes(), Err(ParseError::EndOfStream)));
    assert!(p.finish().is_ok());
    let mut p = Parse::new(req(vec![bulk(b"a"), bulk(b"b")])).unwrap();
    assert_eq!(p.next_bytes().unwrap(), b"a".to_vec());
    assert!(matches!(p.finish(), Err(ParseError::Trailing)));
}

#[test]
fn decimal_text() {
    assert_eq!(parse_u64(b"0"), Some(0));
    assert_eq!(parse_u64(b"18446744073709551615"), Some(u64::MAX));
    assert_eq!(parse_u64(b"18446744073709551616"), None);
    assert_eq!(parse_u64(b""), None);
    assert_eq!(parse_u64(b"12a"), None);
    assert_eq!(parse_u64(b"-1"), None);
    assert_eq!(parse_u64(b"007"), Some(7));
    assert_eq!(format_u64(0), b"0".to_vec());
    assert_eq!(format_u64(6379), b"6379".to_vec());
    assert_eq!(format_u64(u64::MAX), b"18446744073709551615".to_vec());
    assert_eq!(duration_from_ms_str("250"), Some(250));
    assert_eq!(duration_from_ms_str("abc"), None);
}

#[test]
fn accept_backoff_doubles_then_gives_up() {
    let mut waits: Vec<u64> = Vec::new();
    let mut backoff: u64 = 1;
    loop {
        match accept_retry(backoff) {
            Some(next) => {
                waits.push(backoff);
                backoff = next;
            }
            None => break,
        }
    }
    assert_eq!(waits, vec![1, 2, 4, 8, 16, 32, 64]);
    assert_eq!(MAX_CONNECTIONS, 250);
}

#[test]
fn shutdown_latch_stays_latched() {
    let mut s = Shutdown::new();
    assert!(!s.is_shutdown());
    s.observe();
    assert!(s.is_shutdown());
    s.observe();
    assert!(s.is_shutdown());
}
