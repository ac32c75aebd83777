use mini_redis::db::State;
use mini_redis::frame::Frame;
use mini_redis::cmd::{Command, SetCmd, Get};
use mini_redis::connection::write_frame;

fn frame_bytes(f: &Frame) -> Vec<u8> {
    let mut out: Vec<u8> = Vec::new();
    write_frame(&mut out, f);
    out
}

#[test]
fn set_then_get_returns_value() {
    let mut db = State::new();
    let notify = db.set(b"k".to_vec(), b"v".to_vec(), None, 0);
    assert!(!notify);
    assert_eq!(db.get(&b"k".to_vec()), Some(b"v".to_vec()));
    assert_eq!(db.get(&b"missing".to_vec()), None);
}

#[test]
fn set_with_expiry_notifies_and_registers_deadline() {
    let mut db = State::new();
    assert_eq!(db.next_expiration(), None);
    let notify = db.set(b"a".to_vec(), b"1".to_vec(), Some(100), 0);
    assert!(notify);
    assert_eq!(db.next_expiration(), Some(100));
    // A later deadline does not become the new earliest one.
    let notify2 = db.set(b"b".to_vec(), b"2".to_vec(), Some(500), 0);
    assert!(!notify2);
    assert_eq!(db.next_expiration(), Some(100));
    // An earlier deadline does.
    let notify3 = db.set(b"c".to_vec(), b"3".to_vec(), Some(50), 0);
    assert!(notify3);
    assert_eq!(db.next_expiration(), Some(50));
}

#[test]
fn purge_removes_expired_entries() {
    // SET foo bar PX 100, wait 200 ms: GET foo finds nothing.
    let mut db = State::new();
    db.set(b"foo".to_vec(), b"bar".to_vec(), Some(100), 0);
    assert_eq!(db.get(&b"foo".to_vec()), Some(b"bar".to_vec()));
    let next = db.purge_expired_keys(200);
    assert_eq!(next, None);
    assert_eq!(db.get(&b"foo".to_vec()), None);
}

#[test]
fn purge_keeps_future_entries_and_returns_deadline() {
    let mut db = State::new();
    db.set(b"soon".to_vec(), b"1".to_vec(), Some(100), 0);
    db.set(b"later".to_vec(), b"2".to_vec(), Some(900), 0);
    let next = db.purge_expired_keys(200);
    assert_eq!(next, Some(900));
    assert_eq!(db.get(&b"soon".to_vec()), None);
    assert_eq!(db.get(&b"later".to_vec()), Some(b"2".to_vec()));
}

#[test]
fn overwrite_without_expiry_survives_the_reaper() {
    // SET k v1 PX d, then SET k v2: the reaper never removes k.
    let mut db = State::new();
    db.set(b"k".to_vec(), b"v1".to_vec(), Some(100), 0);
    db.set(b"k".to_vec(), b"v2".to_vec(), None, 0);
    // The old deadline row left with the old entry.
    assert_eq!(db.next_expiration(), None);
    let next = db.purge_expired_keys(1_000_000);
    assert_eq!(next, None);
    assert_eq!(db.get(&b"k".to_vec()), Some(b"v2".to_vec()));
}

#[test]
fn purge_does_nothing_after_shutdown() {
    let mut db = State::new();
    db.set(b"k".to_vec(), b"v".to_vec(), Some(10), 0);
    db.set_shutdown();
    assert!(db.is_shutdown());
    assert_eq!(db.purge_expired_keys(100), None);
    // Nothing was removed: shutdown stops the reaper's work.
    assert_eq!(db.get(&b"k".to_vec()), Some(b"v".to_vec()));
}

#[test]
fn set_command_nx_first_wins() {
    // SET foo v1 NX succeeds; SET foo v2 NX answers Null; GET foo is v1.
    let mut db = State::new();
    let f1 = Frame::Array(vec![
        Frame::Bulk(b"SET".to_vec()),
        Frame::Bulk(b"foo".to_vec()),
        Frame::Bulk(b"v1".to_vec()),
        Frame::Bulk(b"NX".to_vec()),
    ]);
    let cmd1 = Command::from_frame(f1).unwrap();
    let set1 = match cmd1 {
        Command::SetCmd(s) => s,
        other => panic!("expected set, got {:?}", other),
    };
    let (resp1, _) = set1.apply(&mut db, 0);
    assert_eq!(frame_bytes(&resp1), b"+OK\r\n".to_vec());

    let f2 = Frame::Array(vec![
        Frame::Bulk(b"SET".to_vec()),
        Frame::Bulk(b"foo".to_vec()),
        Frame::Bulk(b"v2".to_vec()),
        Frame::Bulk(b"NX".to_vec()),
    ]);
    let set2 = match Command::from_frame(f2).unwrap() {
        Command::SetCmd(s) => s,
        other => panic!("expected set, got {:?}", other),
    };
    let (resp2, _) = set2.apply(&mut db, 0);
    assert_eq!(frame_bytes(&resp2), b"$-1\r\n".to_vec());

    let get = Get::new(b"foo".to_vec());
    let resp3 = get.apply(&db);
    assert_eq!(frame_bytes(&resp3), b"$2\r\nv1\r\n".to_vec());
}

#[test]
fn set_command_xx_requires_presence() {
    let mut db = State::new();
    let set = SetCmd::new(b"k".to_vec(), b"v".to_vec(), None);
    let f = Frame::Array(vec![
        Frame::Bulk(b"set".to_vec()),
        Frame::Bulk(b"k".to_vec()),
        Frame::Bulk(b"v".to_vec()),
        Frame::Bulk(b"XX".to_vec()),
    ]);
    let sx = match Command::from_frame(f).unwrap() {
        Command::SetCmd(s) => s,
        other => panic!("expected set, got {:?}", other),
    };
    let (resp, _) = sx.apply(&mut db, 0);
    assert!(matches!(resp, Frame::Null));
    // After a plain SET the key exists and XX succeeds.
    let (ok, _) = set.apply(&mut db, 0);
    assert!(matches!(ok, Frame::Simple(_)));
    let f2 = Frame::Array(vec![
        Frame::Bulk(b"set".to_vec()),
        Frame::Bulk(b"k".to_vec()),
        Frame::Bulk(b"v2".to_vec()),
        Frame::Bulk(b"xx".to_vec()),
    ]);
    let sx2 = match Command::from_frame(f2).unwrap() {
        Command::SetCmd(s) => s,
        other => panic!("expected set, got {:?}", other),
    };
    let (resp2, _) = sx2.apply(&mut db, 0);
    assert!(matches!(resp2, Frame::Simple(_)));
    assert_eq!(db.get(&b"k".to_vec()), Some(b"v2".to_vec()));
}

#[test]
fn get_on_unset_key_is_null() {
    // GET xyz on a fresh store answers the null bulk frame.
    let db = State::new();
    let get = Get::new(b"xyz".to_vec());
    let resp = get.apply(&db);
    assert_eq!(frame_bytes(&resp), b"$-1\r\n".to_vec());
}

#[test]
fn stale_value_visible_until_purge() {
    // Reads do not check the deadline; the reaper is the sole remover.
    let mut db = State::new();
    db.set(b"k".to_vec(), b"v".to_vec(), Some(100), 0);
    // Past the deadline but before any reaper run the value is still there.
    assert_eq!(db.get(&b"k".to_vec()), Some(b"v".to_vec()));
    db.purge_expired_keys(150);
    assert_eq!(db.get(&b"k".to_vec()), None);
}

#[test]
fn expiry_uses_write_instant() {
    let mut db = State::new();
    db.set(b"k".to_vec(), b"v".to_vec(), Some(100), 1000);
    assert_eq!(db.next_expiration(), Some(1100));
    assert_eq!(db.purge_expired_keys(1050), Some(1100));
    assert_eq!(db.get(&b"k".to_vec()), Some(b"v".to_vec()));
    db.purge_expired_keys(1100);
    assert_eq!(db.get(&b"k".to_vec()), None);
}
