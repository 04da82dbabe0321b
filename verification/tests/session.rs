//! One session, byte for byte: request bytes in, reply bytes out.

use mini_redis::cmd::{apply_get, apply_ping, apply_set, unknown_reply, Command};
use mini_redis::db::State;
use mini_redis::frame::Frame;

/// Reads one request from raw bytes, applies it, and hands back the raw
/// reply bytes, as the connection handler does.
fn serve(state: &mut State, request: &[u8]) -> Vec<u8> {
    let (frame, used) = Frame::parse(request, 0).expect("request must parse");
    assert_eq!(used, request.len());
    let reply = match Command::from_frame(frame).expect("request must be a command") {
        Command::Get { key } => apply_get(state, &key),
        Command::Put { key, value, expire_ms } => {
            let (reply, _notify) = apply_set(state, key, value, expire_ms, 0);
            reply
        }
        Command::Ping { msg } => apply_ping(msg),
        Command::Unknown { name } => unknown_reply(&name),
        _ => panic!("not exercised here"),
    };
    reply.try_encode().expect("replies are never nested arrays")
}

#[test]
fn set_then_get_on_the_wire() {
    let mut state = State::new();
    let ok = serve(&mut state, b"*3\r\n$3\r\nSET\r\n$5\r\nhello\r\n$5\r\nworld\r\n");
    assert_eq!(ok, b"+OK\r\n".to_vec());
    let value = serve(&mut state, b"*2\r\n$3\r\nGET\r\n$5\r\nhello\r\n");
    assert_eq!(value, b"$5\r\nworld\r\n".to_vec());
    let missing = serve(&mut state, b"*2\r\n$3\r\nGET\r\n$7\r\nmissing\r\n");
    assert_eq!(missing, b"$-1\r\n".to_vec());
}

#[test]
fn ping_and_unknown_on_the_wire() {
    let mut state = State::new();
    assert_eq!(serve(&mut state, b"*1\r\n$4\r\nPING\r\n"), b"+PONG\r\n".to_vec());
    assert_eq!(
        serve(&mut state, b"*1\r\n$7\r\nFOOBARS\r\n"),
        b"-ERR unknown command 'FOOBARS'\r\n".to_vec()
    );
}

#[test]
fn expired_value_not_served() {
    let mut state = State::new();
    serve(&mut state, b"*5\r\n$3\r\nSET\r\n$1\r\nk\r\n$1\r\nv\r\n$2\r\nPX\r\n$3\r\n100\r\n");
    assert_eq!(serve(&mut state, b"*2\r\n$3\r\nGET\r\n$1\r\nk\r\n"), b"$1\r\nv\r\n".to_vec());
    // the reaper runs past the deadline
    state.purge_expired_keys(300);
    assert_eq!(serve(&mut state, b"*2\r\n$3\r\nGET\r\n$1\r\nk\r\n"), b"$-1\r\n".to_vec());
}
