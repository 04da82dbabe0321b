//! Frame codec: round trips, check/parse agreement, prefixes.

use mini_redis::frame::{Error, Frame};

fn simple(s: &[u8]) -> Frame {
    Frame::Simple(s.to_vec())
}

fn bulk(s: &[u8]) -> Frame {
    Frame::Bulk(s.to_vec())
}

fn assert_round_trip(f: &Frame) {
    let bytes = f.encode();
    let (parsed, used) = Frame::parse(bytes.as_slice(), 0).expect("must parse");
    assert_eq!(used, bytes.len());
    assert_frames_equal(f, &parsed);
}

fn assert_frames_equal(a: &Frame, b: &Frame) {
    match (a, b) {
        (Frame::Simple(x), Frame::Simple(y)) => assert_eq!(x, y),
        (Frame::Error(x), Frame::Error(y)) => assert_eq!(x, y),
        (Frame::Integer(x), Frame::Integer(y)) => assert_eq!(x, y),
        (Frame::Bulk(x), Frame::Bulk(y)) => assert_eq!(x, y),
        (Frame::Null, Frame::Null) => {}
        (Frame::Array(x), Frame::Array(y)) => {
            assert_eq!(x.len(), y.len());
            for i in 0..x.len() {
                assert_frames_equal(&x[i], &y[i]);
            }
        }
        _ => panic!("frame kinds differ"),
    }
}

#[test]
fn round_trip_simple() {
    assert_round_trip(&simple(b"OK"));
    assert_round_trip(&simple(b""));
    assert_round_trip(&simple(b"hello world"));
    // multi-byte UTF-8 text survives the trip
    assert_round_trip(&simple("héllo wörld €".as_bytes()));
}

#[test]
fn round_trip_error() {
    assert_round_trip(&Frame::Error(b"ERR something went wrong".to_vec()));
}

#[test]
fn round_trip_integer() {
    assert_round_trip(&Frame::Integer(0));
    assert_round_trip(&Frame::Integer(123));
    assert_round_trip(&Frame::Integer(u64::MAX));
}

#[test]
fn round_trip_bulk() {
    assert_round_trip(&bulk(b"world"));
    assert_round_trip(&bulk(b""));
    // payloads may hold CR/LF: the length prefix carries the reader past them
    assert_round_trip(&bulk(b"a\r\nb\r"));
}

#[test]
fn round_trip_null() {
    assert_round_trip(&Frame::Null);
    assert_eq!(Frame::Null.encode(), b"$-1\r\n".to_vec());
}

#[test]
fn round_trip_array() {
    let f = Frame::Array(vec![bulk(b"GET"), bulk(b"hello"), Frame::Integer(7), Frame::Null]);
    assert_round_trip(&f);
}

#[test]
fn encode_exact_bytes() {
    assert_eq!(simple(b"OK").encode(), b"+OK\r\n".to_vec());
    assert_eq!(Frame::Integer(6379).encode(), b":6379\r\n".to_vec());
    assert_eq!(bulk(b"world").encode(), b"$5\r\nworld\r\n".to_vec());
    let get = Frame::Array(vec![bulk(b"GET"), bulk(b"hello")]);
    assert_eq!(get.encode(), b"*2\r\n$3\r\nGET\r\n$5\r\nhello\r\n".to_vec());
}

#[test]
fn parse_request_bytes() {
    let buf = b"*2\r\n$3\r\nGET\r\n$5\r\nhello\r\n";
    let (f, used) = Frame::parse(buf, 0).expect("must parse");
    assert_eq!(used, buf.len());
    match f {
        Frame::Array(items) => {
            assert_eq!(items.len(), 2);
            match (&items[0], &items[1]) {
                (Frame::Bulk(a), Frame::Bulk(b)) => {
                    assert_eq!(a, &b"GET".to_vec());
                    assert_eq!(b, &b"hello".to_vec());
                }
                _ => panic!("wrong element kinds"),
            }
        }
        _ => panic!("not an array"),
    }
}

#[test]
fn parse_accepts_leading_zeros() {
    let (f, used) = Frame::parse(b":007\r\n", 0).expect("must parse");
    assert_eq!(used, 6);
    match f {
        Frame::Integer(n) => assert_eq!(n, 7),
        _ => panic!("not an integer"),
    }
}

#[test]
fn parse_nested_array() {
    // the reader accepts nested arrays even though the writer never makes them
    let buf = b"*1\r\n*2\r\n+a\r\n:5\r\n";
    let (f, used) = Frame::parse(buf, 0).expect("must parse");
    assert_eq!(used, buf.len());
    match f {
        Frame::Array(outer) => match &outer[0] {
            Frame::Array(inner) => assert_eq!(inner.len(), 2),
            _ => panic!("inner not an array"),
        },
        _ => panic!("outer not an array"),
    }
}

#[test]
fn incomplete_buffers() {
    for buf in [
        &b""[..],
        b"+",
        b"+OK",
        b"+OK\r",
        b":12",
        b"$5\r\nwor",
        b"$5\r\nworld",
        b"*2\r\n$3\r\nGET\r\n",
        b"$-1\r",
    ] {
        assert_eq!(Frame::check(buf, 0), Err(Error::Incomplete), "{buf:?}");
        assert!(matches!(Frame::parse(buf, 0), Err(Error::Incomplete)), "{buf:?}");
    }
}

#[test]
fn invalid_buffers() {
    for buf in [
        &b"x\r\n"[..],
        b":abc\r\n",
        b":\r\n",
        b":-1\r\n",
        b"$-2\r\n",
        b"$abc\r\n",
        b"*x\r\n",
        b"*1\r\nx\r\n",
        // simple and error lines must be UTF-8
        b"+\xff\r\n",
        b"-ok\xc0\r\n",
        b"+\xed\xa0\x80\r\n",
        b"*1\r\n+\xff\r\n",
    ] {
        assert_eq!(Frame::check(buf, 0), Err(Error::Invalid), "{buf:?}");
        assert!(matches!(Frame::parse(buf, 0), Err(Error::Invalid)), "{buf:?}");
    }
}

#[test]
fn check_and_parse_agree() {
    let bufs: Vec<&[u8]> = vec![
        b"+OK\r\n",
        b"+OK\r\nextra",
        b"-oops\r\n",
        b":42\r\n",
        b"$3\r\nabc\r\n",
        b"$-1\r\n",
        b"*0\r\n",
        b"*2\r\n+a\r\n+b\r\n",
        b"",
        b":4",
        b"nonsense",
        b"$-2\r\n",
        b"*1\r\n:x\r\n",
        b"+\xff\r\n",
        b"+caf\xc3\xa9\r\n",
    ];
    for buf in bufs {
        match (Frame::check(buf, 0), Frame::parse(buf, 0)) {
            (Ok(end_c), Ok((_, end_p))) => assert_eq!(end_c, end_p, "{buf:?}"),
            (Err(a), Err(b)) => assert_eq!(a, b, "{buf:?}"),
            (c, p) => panic!("disagree on {buf:?}: {c:?} vs {p:?}", p = p.is_ok()),
        }
    }
}

#[test]
fn prefixes_of_valid_frames_never_invalid() {
    let frames = vec![
        simple(b"PONG"),
        Frame::Integer(1234),
        bulk(b"some payload"),
        Frame::Null,
        Frame::Array(vec![bulk(b"SET"), bulk(b"k"), bulk(b"v")]),
    ];
    for f in &frames {
        let bytes = f.encode();
        for cut in 0..bytes.len() {
            match Frame::check(&bytes[..cut], 0) {
                Err(Error::Incomplete) => {}
                Ok(_) => {}
                Err(Error::Invalid) => panic!("prefix of a valid frame flagged invalid"),
            }
        }
    }
}
