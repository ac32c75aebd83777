use mini_redis::pubsub::{PubSub, RecvOutcome};
use mini_redis::cmd::Publish;
use mini_redis::frame::Frame;
use mini_redis::connection::write_frame;

#[test]
fn publish_without_subscribers_returns_zero() {
    let mut ps = PubSub::new(8);
    let n = ps.publish(&b"news".to_vec(), &b"hi".to_vec());
    assert_eq!(n, 0);
    assert_eq!(ps.subscriber_count(&b"news".to_vec()), 0);
}

#[test]
fn subscriber_before_publish_receives_message() {
    let mut ps = PubSub::new(8);
    let channel = b"news".to_vec();
    let early = ps.subscribe(&channel);
    let n = ps.publish(&channel, &b"hi".to_vec());
    assert_eq!(n, 1);
    // A subscriber that joins after the publish sees nothing.
    let late = ps.subscribe(&channel);
    assert!(matches!(ps.recv(&channel, early), RecvOutcome::Msg(m) if m == b"hi".to_vec()));
    assert!(matches!(ps.recv(&channel, early), RecvOutcome::Empty));
    assert!(matches!(ps.recv(&channel, late), RecvOutcome::Empty));
}

#[test]
fn messages_arrive_in_publish_order() {
    let mut ps = PubSub::new(8);
    let channel = b"c".to_vec();
    let s = ps.subscribe(&channel);
    ps.publish(&channel, &b"one".to_vec());
    ps.publish(&channel, &b"two".to_vec());
    assert!(matches!(ps.recv(&channel, s), RecvOutcome::Msg(m) if m == b"one".to_vec()));
    assert!(matches!(ps.recv(&channel, s), RecvOutcome::Msg(m) if m == b"two".to_vec()));
}

#[test]
fn slow_subscriber_lags_and_resumes() {
    // Buffer of two: a third publish drops the oldest message, the
    // publisher never waits, and the subscriber resumes after one lag note.
    let mut ps = PubSub::new(2);
    let channel = b"c".to_vec();
    let s = ps.subscribe(&channel);
    assert_eq!(ps.publish(&channel, &b"a".to_vec()), 1);
    assert_eq!(ps.publish(&channel, &b"b".to_vec()), 1);
    assert_eq!(ps.publish(&channel, &b"c".to_vec()), 1);
    assert!(matches!(ps.recv(&channel, s), RecvOutcome::Lagged));
    assert!(matches!(ps.recv(&channel, s), RecvOutcome::Msg(m) if m == b"b".to_vec()));
    assert!(matches!(ps.recv(&channel, s), RecvOutcome::Msg(m) if m == b"c".to_vec()));
    assert!(matches!(ps.recv(&channel, s), RecvOutcome::Empty));
}

#[test]
fn unsubscribe_removes_only_that_subscriber() {
    let mut ps = PubSub::new(8);
    let channel = b"c".to_vec();
    let s1 = ps.subscribe(&channel);
    let s2 = ps.subscribe(&channel);
    assert_eq!(ps.subscriber_count(&channel), 2);
    assert!(ps.unsubscribe(&channel, s1));
    assert_eq!(ps.subscriber_count(&channel), 1);
    assert!(!ps.unsubscribe(&channel, s1));
    assert!(matches!(ps.recv(&channel, s1), RecvOutcome::Closed));
    assert_eq!(ps.publish(&channel, &b"m".to_vec()), 1);
    assert!(matches!(ps.recv(&channel, s2), RecvOutcome::Msg(_)));
}

#[test]
fn channels_are_independent() {
    let mut ps = PubSub::new(8);
    let a = b"a".to_vec();
    let b = b"b".to_vec();
    let sa = ps.subscribe(&a);
    let _sb = ps.subscribe(&b);
    assert_eq!(ps.publish(&a, &b"m".to_vec()), 1);
    assert!(matches!(ps.recv(&a, sa), RecvOutcome::Msg(_)));
    assert!(matches!(ps.recv(&b, _sb), RecvOutcome::Empty));
}

#[test]
fn publish_command_reports_subscriber_count() {
    // Client B publishes "hi" to news with one subscriber: the response
    // frame is the integer 1.
    let mut ps = PubSub::new(8);
    let _s = ps.subscribe(&b"news".to_vec());
    let publish = Publish::new(b"news".to_vec(), b"hi".to_vec());
    let resp = publish.apply(&mut ps);
    let mut out: Vec<u8> = Vec::new();
    write_frame(&mut out, &resp);
    assert_eq!(out, b":1\r\n".to_vec());
    assert!(matches!(resp, Frame::Integer(1)));
}
