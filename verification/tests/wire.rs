//! The literal request/response exchanges, at the frame level: bytes in,
//! command applied to a store, bytes out.

use mini_redis::cmd::Command;
use mini_redis::connection::{parse_frame, write_frame};
use mini_redis::db::State;
use mini_redis::frame::Frame;

/// Decode one request, apply it, and return the encoded response.
fn exchange(db: &mut State, request: &[u8], now: u64) -> Vec<u8> {
    let buf = request.to_vec();
    let (frame, used) = parse_frame(&buf).unwrap().unwrap();
    assert_eq!(used, request.len());
    let response = match Command::from_frame(frame).unwrap() {
        Command::Get(get) => get.apply(db),
        Command::SetCmd(set) => set.apply(db, now).0,
        Command::Unknown(unknown) => unknown.apply(),
        other => panic!("not a store command: {:?}", other),
    };
    let mut out: Vec<u8> = Vec::new();
    write_frame(&mut out, &response);
    out
}

#[test]
fn set_then_get_round_trip_on_the_wire() {
    let mut db = State::new();
    let r1 = exchange(&mut db, b"*3\r\n$3\r\nSET\r\n$3\r\nfoo\r\n$3\r\nbar\r\n", 0);
    assert_eq!(r1, b"+OK\r\n".to_vec());
    let r2 = exchange(&mut db, b"*2\r\n$3\r\nGET\r\n$3\r\nfoo\r\n", 0);
    assert_eq!(r2, b"$3\r\nbar\r\n".to_vec());
}

#[test]
fn get_unset_key_replies_null() {
    let mut db = State::new();
    let r = exchange(&mut db, b"*2\r\n$3\r\nGET\r\n$3\r\nxyz\r\n", 0);
    assert_eq!(r, b"$-1\r\n".to_vec());
}

#[test]
fn px_expiry_lapses_after_the_reaper_runs() {
    let mut db = State::new();
    let r1 = exchange(
        &mut db,
        b"*5\r\n$3\r\nSET\r\n$3\r\nfoo\r\n$3\r\nbar\r\n$2\r\nPX\r\n$3\r\n100\r\n",
        0,
    );
    assert_eq!(r1, b"+OK\r\n".to_vec());
    // 200 ms later the reaper has removed the entry.
    db.purge_expired_keys(200);
    let r2 = exchange(&mut db, b"*2\r\n$3\r\nGET\r\n$3\r\nfoo\r\n", 200);
    assert_eq!(r2, b"$-1\r\n".to_vec());
}

#[test]
fn nx_wins_only_once_on_the_wire() {
    let mut db = State::new();
    let r1 = exchange(
        &mut db,
        b"*4\r\n$3\r\nSET\r\n$3\r\nfoo\r\n$2\r\nv1\r\n$2\r\nNX\r\n",
        0,
    );
    assert_eq!(r1, b"+OK\r\n".to_vec());
    let r2 = exchange(
        &mut db,
        b"*4\r\n$3\r\nSET\r\n$3\r\nfoo\r\n$2\r\nv2\r\n$2\r\nNX\r\n",
        0,
    );
    assert_eq!(r2, b"$-1\r\n".to_vec());
    let r3 = exchange(&mut db, b"*2\r\n$3\r\nGET\r\n$3\r\nfoo\r\n", 0);
    assert_eq!(r3, b"$2\r\nv1\r\n".to_vec());
}

#[test]
fn ping_is_answered_and_the_connection_stays_usable() {
    let mut db = State::new();
    let r1 = exchange(&mut db, b"*1\r\n$4\r\nPING\r\n", 0);
    assert_eq!(r1, b"-ERR unknown command 'ping'\r\n".to_vec());
    // The command plane still works afterwards.
    let r2 = exchange(&mut db, b"*2\r\n$3\r\nGET\r\n$1\r\nk\r\n", 0);
    assert_eq!(r2, b"$-1\r\n".to_vec());
}

#[test]
fn subscribe_dispatch_keeps_channel_order() {
    let buf = b"*2\r\n$9\r\nSUBSCRIBE\r\n$4\r\nnews\r\n".to_vec();
    let (frame, _) = parse_frame(&buf).unwrap().unwrap();
    match Command::from_frame(frame).unwrap() {
        Command::Subscribe(s) => assert_eq!(s.into_channels(), vec![b"news".to_vec()]),
        other => panic!("expected subscribe, got {:?}", other),
    }
    // A top-level UNSUBSCRIBE parses, but the handler refuses it outside
    // the subscribe state.
    let buf2 = b"*1\r\n$11\r\nUNSUBSCRIBE\r\n".to_vec();
    let (frame2, _) = parse_frame(&buf2).unwrap().unwrap();
    assert!(matches!(
        Command::from_frame(frame2),
        Ok(Command::Unsubscribe(_))
    ));
}

#[test]
fn publish_reply_is_the_integer_frame() {
    let mut ps = mini_redis::pubsub::PubSub::new(1024);
    let _sub = ps.subscribe(&b"news".to_vec());
    let buf = b"*3\r\n$7\r\nPUBLISH\r\n$4\r\nnews\r\n$2\r\nhi\r\n".to_vec();
    let (frame, _) = parse_frame(&buf).unwrap().unwrap();
    let publish = match Command::from_frame(frame).unwrap() {
        Command::Publish(p) => p,
        other => panic!("expected publish, got {:?}", other),
    };
    let resp = publish.apply(&mut ps);
    let mut out: Vec<u8> = Vec::new();
    write_frame(&mut out, &resp);
    assert_eq!(out, b":1\r\n".to_vec());
}
