use mini_redis::frame::Frame;
use mini_redis::cmd::{Command, Unknown};
use mini_redis::cmd::subscribe::{
    make_subscribe_frame, make_unsubscribe_frame, make_message_frame, unsubscribe_targets,
};
use mini_redis::connection::write_frame;

fn frame_bytes(f: &Frame) -> Vec<u8> {
    let mut out: Vec<u8> = Vec::new();
    write_frame(&mut out, f);
    out
}

fn cmd_frame(parts: &[&[u8]]) -> Frame {
    let mut items: Vec<Frame> = Vec::new();
    for p in parts {
        items.push(Frame::Bulk(p.to_vec()));
    }
    Frame::Array(items)
}

#[test]
fn dispatches_get() {
    let cmd = Command::from_frame(cmd_frame(&[b"GET", b"foo"])).unwrap();
    match cmd {
        Command::Get(g) => assert_eq!(g.key(), &b"foo".to_vec()),
        other => panic!("expected get, got {:?}", other),
    }
}

#[test]
fn dispatch_is_case_insensitive() {
    let cmd = Command::from_frame(cmd_frame(&[b"GeT", b"k"])).unwrap();
    assert!(matches!(cmd, Command::Get(_)));
}

#[test]
fn get_requires_exactly_one_key() {
    assert!(Command::from_frame(cmd_frame(&[b"get"])).is_err());
    assert!(Command::from_frame(cmd_frame(&[b"get", b"a", b"b"])).is_err());
}

#[test]
fn rejects_non_array_command() {
    assert!(Command::from_frame(Frame::Simple(b"get".to_vec())).is_err());
}

#[test]
fn dispatches_set_with_expiry_options() {
    let cmd = Command::from_frame(cmd_frame(&[b"set", b"k", b"v", b"EX", b"5"])).unwrap();
    match cmd {
        Command::SetCmd(s) => {
            assert_eq!(s.key(), &b"k".to_vec());
            assert_eq!(s.value(), &b"v".to_vec());
            assert_eq!(s.expire(), Some(5000));
        }
        other => panic!("expected set, got {:?}", other),
    }
    let cmd2 = Command::from_frame(cmd_frame(&[b"set", b"k", b"v", b"px", b"250"])).unwrap();
    match cmd2 {
        Command::SetCmd(s) => assert_eq!(s.expire(), Some(250)),
        other => panic!("expected set, got {:?}", other),
    }
}

#[test]
fn set_reads_at_most_two_option_tokens() {
    // Two options are accepted together.
    let ok = Command::from_frame(cmd_frame(&[b"set", b"k", b"v", b"PX", b"100", b"NX"]));
    assert!(matches!(ok, Ok(Command::SetCmd(_))));
    // A third option token trails and is refused.
    let err = Command::from_frame(cmd_frame(&[b"set", b"k", b"v", b"NX", b"PX", b"100"]));
    assert!(matches!(err, Ok(Command::SetCmd(_))));
    let err2 = Command::from_frame(cmd_frame(&[
        b"set", b"k", b"v", b"EX", b"5", b"NX", b"XX",
    ]));
    assert!(err2.is_err());
}

#[test]
fn set_rejects_nx_with_xx() {
    let r = Command::from_frame(cmd_frame(&[b"set", b"k", b"v", b"NX", b"XX"]));
    assert!(r.is_err());
}

#[test]
fn set_rejects_unknown_option() {
    let r = Command::from_frame(cmd_frame(&[b"set", b"k", b"v", b"KEEPTTL"]));
    assert!(r.is_err());
}

#[test]
fn set_rejects_bad_expiry_number() {
    let r = Command::from_frame(cmd_frame(&[b"set", b"k", b"v", b"PX", b"soon"]));
    assert!(r.is_err());
}

#[test]
fn dispatches_publish() {
    let cmd = Command::from_frame(cmd_frame(&[b"publish", b"news", b"hi"])).unwrap();
    assert!(matches!(cmd, Command::Publish(_)));
    assert!(Command::from_frame(cmd_frame(&[b"publish", b"news"])).is_err());
}

#[test]
fn dispatches_subscribe_and_unsubscribe() {
    let cmd = Command::from_frame(cmd_frame(&[b"subscribe", b"a", b"b"])).unwrap();
    match cmd {
        Command::Subscribe(s) => {
            let chs = s.into_channels();
            assert_eq!(chs, vec![b"a".to_vec(), b"b".to_vec()]);
        }
        other => panic!("expected subscribe, got {:?}", other),
    }
    // SUBSCRIBE needs at least one channel; UNSUBSCRIBE accepts none.
    assert!(Command::from_frame(cmd_frame(&[b"subscribe"])).is_err());
    let cmd2 = Command::from_frame(cmd_frame(&[b"unsubscribe"])).unwrap();
    match cmd2 {
        Command::Unsubscribe(u) => assert_eq!(u.into_channels(), Vec::<Vec<u8>>::new()),
        other => panic!("expected unsubscribe, got {:?}", other),
    }
}

#[test]
fn unknown_command_keeps_arguments_unchecked() {
    // PING is not in the command table; the name comes back lower-cased.
    let cmd = Command::from_frame(cmd_frame(&[b"PING"])).unwrap();
    match cmd {
        Command::Unknown(u) => {
            assert_eq!(u.name_bytes(), b"ping".to_vec());
            let resp = u.apply();
            assert_eq!(
                frame_bytes(&resp),
                b"-ERR unknown command 'ping'\r\n".to_vec()
            );
        }
        other => panic!("expected unknown, got {:?}", other),
    }
    // Extra tokens after an unknown name are ignored, not an error.
    assert!(matches!(
        Command::from_frame(cmd_frame(&[b"ping", b"x", b"y"])),
        Ok(Command::Unknown(_))
    ));
}

#[test]
fn unknown_response_embeds_name() {
    let u = Unknown::new(b"flushall".to_vec());
    let resp = u.apply();
    assert_eq!(
        frame_bytes(&resp),
        b"-ERR unknown command 'flushall'\r\n".to_vec()
    );
}

#[test]
fn command_names_are_reported() {
    let cmd = Command::from_frame(cmd_frame(&[b"get", b"k"])).unwrap();
    assert_eq!(cmd.get_name(), b"get".to_vec());
    let cmd2 = Command::from_frame(cmd_frame(&[b"nosuch"])).unwrap();
    assert_eq!(cmd2.get_name(), b"nosuch".to_vec());
}

#[test]
fn subscribe_state_frames_have_wire_shape() {
    let ack = make_subscribe_frame(b"news".to_vec(), 1);
    assert_eq!(
        frame_bytes(&ack),
        b"*3\r\n$9\r\nsubscribe\r\n$4\r\nnews\r\n:1\r\n".to_vec()
    );
    let unack = make_unsubscribe_frame(b"news".to_vec(), 0);
    assert_eq!(
        frame_bytes(&unack),
        b"*3\r\n$11\r\nunsubscribe\r\n$4\r\nnews\r\n:0\r\n".to_vec()
    );
    let msg = make_message_frame(b"news".to_vec(), b"hi".to_vec());
    assert_eq!(
        frame_bytes(&msg),
        b"*3\r\n$7\r\nmessage\r\n$4\r\nnews\r\n$2\r\nhi\r\n".to_vec()
    );
}

#[test]
fn unsubscribe_targets_defaults_to_all() {
    let subscribed = vec![b"a".to_vec(), b"b".to_vec()];
    let all = unsubscribe_targets(Vec::new(), &subscribed);
    assert_eq!(all, subscribed);
    let some = unsubscribe_targets(vec![b"b".to_vec()], &subscribed);
    assert_eq!(some, vec![b"b".to_vec()]);
}

#[test]
fn client_request_frames_have_wire_shape() {
    let get = mini_redis::cmd::Get::new(b"foo".to_vec()).into_frame();
    assert_eq!(frame_bytes(&get), b"*2\r\n$3\r\nget\r\n$3\r\nfoo\r\n".to_vec());
    let publish = mini_redis::cmd::Publish::new(b"news".to_vec(), b"hi".to_vec()).into_frame();
    assert_eq!(
        frame_bytes(&publish),
        b"*3\r\n$7\r\npublish\r\n$4\r\nnews\r\n$2\r\nhi\r\n".to_vec()
    );
    let subscribe = mini_redis::cmd::Subscribe::new(vec![b"news".to_vec()]).into_frame();
    assert_eq!(
        frame_bytes(&subscribe),
        b"*2\r\n$9\r\nsubscribe\r\n$4\r\nnews\r\n".to_vec()
    );
}
