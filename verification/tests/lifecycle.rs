use mini_redis::server::{ConnLimiter, next_backoff, MAX_CONNECTIONS};
use mini_redis::client::{
    interpret_get_response, interpret_set_response, interpret_publish_response,
    check_subscribe_ack, read_unsubscribe_ack, interpret_message, response_or_error,
    remove_channel, ClientError,
};
use mini_redis::frame::Frame;

#[test]
fn backoff_doubles_then_gives_up() {
    let mut waits: Vec<u64> = Vec::new();
    let mut backoff: u64 = 1;
    loop {
        match next_backoff(backoff) {
            Some(next) => {
                waits.push(backoff);
                backoff = next;
            }
            None => break,
        }
    }
    assert_eq!(waits, vec![1, 2, 4, 8, 16, 32, 64]);
    assert_eq!(backoff, 128);
}

#[test]
fn connection_budget_caps_live_handlers() {
    let mut limiter = ConnLimiter::new();
    let mut granted: u64 = 0;
    for _ in 0..MAX_CONNECTIONS {
        assert!(limiter.try_acquire());
        granted += 1;
    }
    assert_eq!(granted, MAX_CONNECTIONS);
    // The next accept must wait until some handler exits.
    assert!(!limiter.try_acquire());
    limiter.release();
    assert!(limiter.try_acquire());
    assert!(!limiter.try_acquire());
}

#[test]
fn get_responses_are_interpreted() {
    assert_eq!(
        interpret_get_response(Frame::Bulk(b"bar".to_vec())),
        Ok(Some(b"bar".to_vec()))
    );
    assert_eq!(interpret_get_response(Frame::Null), Ok(None));
    assert_eq!(
        interpret_get_response(Frame::Integer(3)),
        Err(ClientError::UnexpectedFrame)
    );
}

#[test]
fn set_response_accepts_only_ok() {
    assert_eq!(interpret_set_response(Frame::Simple(b"OK".to_vec())), Ok(()));
    assert!(interpret_set_response(Frame::Simple(b"ok".to_vec())).is_err());
    assert!(interpret_set_response(Frame::Null).is_err());
}

#[test]
fn publish_response_is_a_count() {
    assert_eq!(interpret_publish_response(Frame::Integer(2)), Ok(2));
    assert!(interpret_publish_response(Frame::Null).is_err());
}

#[test]
fn error_frames_become_request_errors() {
    let err = response_or_error(Frame::Error(b"ERR nope".to_vec()));
    assert!(matches!(err, Err(m) if m == b"ERR nope".to_vec()));
    assert!(response_or_error(Frame::Integer(1)).is_ok());
}

#[test]
fn subscribe_ack_is_checked_per_channel() {
    let ack = Frame::Array(vec![
        Frame::Bulk(b"subscribe".to_vec()),
        Frame::Bulk(b"news".to_vec()),
        Frame::Integer(1),
    ]);
    assert!(check_subscribe_ack(&ack, &b"news".to_vec()));
    assert!(!check_subscribe_ack(&ack, &b"other".to_vec()));
    let wrong = Frame::Array(vec![
        Frame::Bulk(b"message".to_vec()),
        Frame::Bulk(b"news".to_vec()),
        Frame::Integer(1),
    ]);
    assert!(!check_subscribe_ack(&wrong, &b"news".to_vec()));
}

#[test]
fn unsubscribe_ack_names_the_channel() {
    let ack = Frame::Array(vec![
        Frame::Bulk(b"unsubscribe".to_vec()),
        Frame::Bulk(b"news".to_vec()),
        Frame::Integer(0),
    ]);
    assert_eq!(read_unsubscribe_ack(&ack), Ok(b"news".to_vec()));
    assert!(read_unsubscribe_ack(&Frame::Null).is_err());
}

#[test]
fn pushed_messages_are_decoded() {
    let push = Frame::Array(vec![
        Frame::Bulk(b"message".to_vec()),
        Frame::Bulk(b"news".to_vec()),
        Frame::Bulk(b"hi".to_vec()),
    ]);
    let m = interpret_message(&push).unwrap();
    assert_eq!(m.channel, b"news".to_vec());
    assert_eq!(m.content, b"hi".to_vec());
    let not_push = Frame::Array(vec![
        Frame::Bulk(b"subscribe".to_vec()),
        Frame::Bulk(b"news".to_vec()),
        Frame::Integer(1),
    ]);
    assert!(interpret_message(&not_push).is_err());
}

#[test]
fn acknowledged_channels_leave_the_subscriber_list() {
    let channels = vec![b"a".to_vec(), b"b".to_vec(), b"a".to_vec()];
    let rest = remove_channel(&channels, &b"a".to_vec());
    assert_eq!(rest, vec![b"b".to_vec()]);
    let unchanged = remove_channel(&channels, &b"zz".to_vec());
    assert_eq!(unchanged, channels);
}
