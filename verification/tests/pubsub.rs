//! Publish/subscribe through the registry and real broadcast channels.

use mini_redis::cmd::{apply_publish, message_frame};
use mini_redis::frame::Frame;
use mini_redis::pubsub::PubSub;
use tokio::sync::broadcast::error::TryRecvError;

#[test]
fn publish_without_subscribers_returns_zero() {
    let mut ps = PubSub::new();
    assert_eq!(ps.publish(b"ch", b"x".to_vec()), 0);
    assert_eq!(ps.publish(b"ch", b"y".to_vec()), 0);
    // nothing was retained for a channel nobody asked for
    let mut rx = ps.subscribe(b"ch".to_vec());
    assert!(matches!(rx.try_recv(), Err(TryRecvError::Empty)));
}

#[test]
fn subscribe_then_publish_delivers() {
    let mut ps = PubSub::new();
    let mut rx = ps.subscribe(b"ch1".to_vec());
    let n = ps.publish(b"ch1", b"hi".to_vec());
    assert_eq!(n, 1);
    let payload = rx.try_recv().unwrap();
    assert_eq!(payload, b"hi".to_vec());
    // what the handler then streams to the subscriber, byte for byte
    let frame = message_frame(b"ch1", payload);
    assert_eq!(
        frame.try_encode().unwrap(),
        b"*3\r\n$7\r\nmessage\r\n$3\r\nch1\r\n$2\r\nhi\r\n".to_vec()
    );
}

#[test]
fn publish_before_subscribe_is_not_delivered() {
    let mut ps = PubSub::new();
    let _rx0 = ps.subscribe(b"ch1".to_vec());
    ps.publish(b"ch1", b"early".to_vec());
    let mut rx = ps.subscribe(b"ch1".to_vec());
    assert!(matches!(rx.try_recv(), Err(TryRecvError::Empty)));
}

#[test]
fn two_subscribers_both_counted_and_served() {
    let mut ps = PubSub::new();
    let mut rx1 = ps.subscribe(b"ch".to_vec());
    let mut rx2 = ps.subscribe(b"ch".to_vec());
    assert_eq!(ps.publish(b"ch", b"m".to_vec()), 2);
    assert_eq!(rx1.try_recv().unwrap(), b"m".to_vec());
    assert_eq!(rx2.try_recv().unwrap(), b"m".to_vec());
}

#[test]
fn slow_subscriber_lags_instead_of_blocking() {
    let mut ps = PubSub::new();
    let mut rx = ps.subscribe(b"ch".to_vec());
    // far more than the backlog: every send completes without blocking
    for i in 0..5000u32 {
        let n = ps.publish(b"ch", i.to_string().into_bytes());
        assert_eq!(n, 1);
    }
    // the sleeper is told how much it lost, then reads recent messages
    match rx.try_recv() {
        Err(TryRecvError::Lagged(missed)) => assert!(missed >= 1),
        other => panic!("expected lag, got {other:?}"),
    }
    assert!(rx.try_recv().is_ok());
}

#[test]
fn apply_publish_replies_with_the_count() {
    let mut ps = PubSub::new();
    let (reply, n) = apply_publish(&ps, b"nobody", b"x".to_vec());
    assert_eq!(n, 0);
    assert!(matches!(reply, Frame::Integer(0)));
    let _rx = ps.subscribe(b"ch".to_vec());
    let (reply, n) = apply_publish(&ps, b"ch", b"x".to_vec());
    assert_eq!(n, 1);
    assert!(matches!(reply, Frame::Integer(1)));
}
