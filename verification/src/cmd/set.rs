//! The `SET` command.
//!
//! `SET key value [EX secs | PX millis] [NX | XX]`: at most two option
//! tokens are read, matched case-insensitively. `NX` writes only when the
//! key is absent, `XX` only when it is present; together they are a
//! protocol error. Durations are carried in milliseconds.

use vstd::prelude::*;
use crate::frame::{Frame, SpecFrame};
use crate::parse::{Parse, ParseError, ParseFault, token_bytes, token_int};
use crate::db::{State, spec_expiry, should_notify};
use crate::cmd::{to_upper, to_uppercase};

verus! {

/// `EX`
pub open spec fn kw_ex() -> Seq<u8> {
    seq![69u8, 88u8]
}

/// `PX`
pub open spec fn kw_px() -> Seq<u8> {
    seq![80u8, 88u8]
}

/// `NX`
pub open spec fn kw_nx() -> Seq<u8> {
    seq![78u8, 88u8]
}

/// `XX`
pub open spec fn kw_xx() -> Seq<u8> {
    seq![88u8, 88u8]
}

/// `OK`
pub open spec fn ok_bytes() -> Seq<u8> {
    seq![79u8, 75u8]
}

/// `px`, as the client writes it.
pub open spec fn px_token() -> Seq<u8> {
    seq![112u8, 120u8]
}

/// An `EX` count of seconds as milliseconds, when that fits a `u64`.
pub open spec fn px_of_ex(secs: u64) -> Option<u64> {
    if secs <= u64::MAX / 1000 {
        Some((secs * 1000) as u64)
    } else {
        None
    }
}

/// The meaning of a full `SET` argument list.
pub struct SetModel {
    pub key: Seq<u8>,
    pub value: Seq<u8>,
    pub expire: Option<u64>,
    pub nx: bool,
    pub xx: bool,
}

/// Reading of up to `count` more option tokens; `EX` and `PX` consume a
/// number after them, and the token list must be consumed entirely.
pub open spec fn set_opts_model(
    opts: Seq<SpecFrame>,
    count: int,
    expire: Option<u64>,
    nx: bool,
    xx: bool,
) -> Option<(Option<u64>, bool, bool)>
    decreases count,
{
    if opts.len() == 0 {
        Some((expire, nx, xx))
    } else if count <= 0 {
        None
    } else {
        match token_bytes(opts[0]) {
            None => None,
            Some(t) => {
                let u = to_upper(t);
                if u == kw_ex() {
                    if opts.len() >= 2 {
                        match token_int(opts[1]) {
                            Some(secs) => match px_of_ex(secs) {
                                Some(ms) => set_opts_model(
                                    opts.skip(2),
                                    count - 1,
                                    Some(ms),
                                    nx,
                                    xx,
                                ),
                                None => None,
                            },
                            None => None,
                        }
                    } else {
                        None
                    }
                } else if u == kw_px() {
                    if opts.len() >= 2 {
                        match token_int(opts[1]) {
                            Some(ms) => set_opts_model(opts.skip(2), count - 1, Some(ms), nx, xx),
                            None => None,
                        }
                    } else {
                        None
                    }
                } else if u == kw_nx() {
                    set_opts_model(opts.skip(1), count - 1, expire, true, xx)
                } else if u == kw_xx() {
                    set_opts_model(opts.skip(1), count - 1, expire, nx, true)
                } else {
                    None
                }
            },
        }
    }
}

/// The meaning of the whole argument list: key, value, then at most two
/// option tokens, with `NX` and `XX` mutually exclusive.
pub open spec fn set_model(args: Seq<SpecFrame>) -> Option<SetModel> {
    if args.len() >= 2 && token_bytes(args[0]) is Some && token_bytes(args[1]) is Some {
        match set_opts_model(args.skip(2), 2, None, false, false) {
            Some(o) => if o.1 && o.2 {
                None
            } else {
                Some(
                    SetModel {
                        key: token_bytes(args[0])->Some_0,
                        value: token_bytes(args[1])->Some_0,
                        expire: o.0,
                        nx: o.1,
                        xx: o.2,
                    },
                )
            },
            None => None,
        }
    } else {
        None
    }
}

/// Set a key to a value, optionally with a time to live and a presence
/// condition.
#[derive(Debug)]
pub struct SetCmd {
    key: Vec<u8>,
    value: Vec<u8>,
    expire: Option<u64>,
    nx: bool,
    xx: bool,
}

impl SetCmd {
    pub closed spec fn spec_key(&self) -> Seq<u8> {
        self.key@
    }

    pub closed spec fn spec_value(&self) -> Seq<u8> {
        self.value@
    }

    pub closed spec fn spec_expire(&self) -> Option<u64> {
        self.expire
    }

    pub closed spec fn spec_nx(&self) -> bool {
        self.nx
    }

    pub closed spec fn spec_xx(&self) -> bool {
        self.xx
    }

    /// The command denotes exactly this argument-list meaning.
    pub open spec fn models(&self, m: Option<SetModel>) -> bool {
        m matches Some(mm) && mm.key == self.spec_key() && mm.value == self.spec_value()
            && mm.expire == self.spec_expire() && mm.nx == self.spec_nx() && mm.xx == self.spec_xx()
    }

    /// Create a new `Set` writing `value` under `key`, expiring after
    /// `expire` milliseconds if given, unconditionally.
    pub fn new(key: Vec<u8>, value: Vec<u8>, expire: Option<u64>) -> (r: SetCmd)
        ensures
            r.spec_key() == key@,
            r.spec_value() == value@,
            r.spec_expire() == expire,
            !r.spec_nx(),
            !r.spec_xx(),
    {
        SetCmd { key, value, expire, nx: false, xx: false }
    }

    /// The key to write.
    pub fn key(&self) -> (r: &Vec<u8>)
        ensures
            r@ == self.spec_key(),
    {
        &self.key
    }

    /// The value to store.
    pub fn value(&self) -> (r: &Vec<u8>)
        ensures
            r@ == self.spec_value(),
    {
        &self.value
    }

    /// The time to live in milliseconds, if one was given.
    pub fn expire(&self) -> (r: Option<u64>)
        ensures
            r == self.spec_expire(),
    {
        self.expire
    }

    /// The wire form of this command: `["set", key, value]`, with
    /// `["px", millis]` appended when a time to live was given. The
    /// presence conditions are not sent; `new` never sets them.
    pub fn into_frame(self) -> (r: Frame)
        ensures
            r@ == SpecFrame::Array(
                match self.spec_expire() {
                    None => seq![
                        SpecFrame::Bulk(crate::cmd::kw_set()),
                        SpecFrame::Bulk(self.spec_key()),
                        SpecFrame::Bulk(self.spec_value()),
                    ],
                    Some(ms) => seq![
                        SpecFrame::Bulk(crate::cmd::kw_set()),
                        SpecFrame::Bulk(self.spec_key()),
                        SpecFrame::Bulk(self.spec_value()),
                        SpecFrame::Bulk(px_token()),
                        SpecFrame::Integer(ms),
                    ],
                },
            ),
    {
        let mut frame = Frame::array();
        let name: Vec<u8> = vec![115u8, 101u8, 116u8];
        proof {
            assert(name@ =~= crate::cmd::kw_set());
        }
        frame.push_bulk(name);
        frame.push_bulk(self.key);
        frame.push_bulk(self.value);
        match self.expire {
            Some(ms) => {
                let px: Vec<u8> = vec![112u8, 120u8];
                proof {
                    assert(px@ =~= px_token());
                }
                frame.push_bulk(px);
                frame.push_int(ms);
                proof {
                    assert(Seq::<SpecFrame>::empty().push(
                        SpecFrame::Bulk(crate::cmd::kw_set()),
                    ).push(SpecFrame::Bulk(self.spec_key())).push(
                        SpecFrame::Bulk(self.spec_value()),
                    ).push(SpecFrame::Bulk(px_token())).push(SpecFrame::Integer(ms)) =~= seq![
                        SpecFrame::Bulk(crate::cmd::kw_set()),
                        SpecFrame::Bulk(self.spec_key()),
                        SpecFrame::Bulk(self.spec_value()),
                        SpecFrame::Bulk(px_token()),
                        SpecFrame::Integer(ms),
                    ]);
                }
            },
            None => {
                proof {
                    assert(Seq::<SpecFrame>::empty().push(
                        SpecFrame::Bulk(crate::cmd::kw_set()),
                    ).push(SpecFrame::Bulk(self.spec_key())).push(
                        SpecFrame::Bulk(self.spec_value()),
                    ) =~= seq![
                        SpecFrame::Bulk(crate::cmd::kw_set()),
                        SpecFrame::Bulk(self.spec_key()),
                        SpecFrame::Bulk(self.spec_value()),
                    ]);
                }
            },
        }
        frame
    }

    /// Read the argument tokens of a `SET`.
    #[verifier::rlimit(60)]
    pub fn parse_frames(parse: &mut Parse) -> (r: Result<SetCmd, ParseError>)
        ensures
            match r {
                Ok(s) => (final(parse).remaining().len() == 0 ==> s.models(
                    set_model(old(parse).remaining()),
                )) && (final(parse).remaining().len() > 0 ==> set_model(
                    old(parse).remaining(),
                ) is None),
                Err(_) => set_model(old(parse).remaining()) is None,
            },
    {
        let ghost args = old(parse).remaining();
        let key = match parse.next_bytes() {
            Ok(b) => b,
            Err(e) => {
                return Err(e);
            },
        };
        let value = match parse.next_bytes() {
            Ok(b) => b,
            Err(e) => {
                return Err(e);
            },
        };
        proof {
            assert(args.drop_first()[0] == args[1]);
            assert(args.drop_first().drop_first() =~= args.skip(2));
        }
        let mut expire: Option<u64> = None;
        let mut nx = false;
        let mut xx = false;
        let ghost m0 = set_opts_model(args.skip(2), 2, None, false, false);

        // First option token.
        let ghost rem1 = parse.remaining();
        match parse.next_bytes() {
            Ok(s) => {
                let u = to_uppercase(&s);
                let v_ex: Vec<u8> = vec![69u8, 88u8];
                let v_px: Vec<u8> = vec![80u8, 88u8];
                let v_nx: Vec<u8> = vec![78u8, 88u8];
                let v_xx: Vec<u8> = vec![88u8, 88u8];
                proof {
                    assert(v_ex@ =~= kw_ex());
                    assert(v_px@ =~= kw_px());
                    assert(v_nx@ =~= kw_nx());
                    assert(v_xx@ =~= kw_xx());
                }
                if crate::bytes_eq(&u, &v_ex) {
                    let secs = match parse.next_int() {
                        Ok(v) => v,
                        Err(e) => {
                            return Err(e);
                        },
                    };
                    proof {
                        assert(rem1.drop_first()[0] == rem1[1]);
                        assert(rem1.drop_first().drop_first() =~= rem1.skip(2));
                    }
                    if secs > u64::MAX / 1000 {
                        return Err(ParseError::Other(ParseFault::InvalidNumber));
                    }
                    proof {
                        assert(1000 * (u64::MAX as int / 1000) + u64::MAX as int % 1000
                            == u64::MAX as int);
                    }
                    expire = Some(secs * 1000);
                } else if crate::bytes_eq(&u, &v_px) {
                    let ms = match parse.next_int() {
                        Ok(v) => v,
                        Err(e) => {
                            return Err(e);
                        },
                    };
                    proof {
                        assert(rem1.drop_first()[0] == rem1[1]);
                        assert(rem1.drop_first().drop_first() =~= rem1.skip(2));
                    }
                    expire = Some(ms);
                } else if crate::bytes_eq(&u, &v_nx) {
                    nx = true;
                } else if crate::bytes_eq(&u, &v_xx) {
                    xx = true;
                } else {
                    return Err(ParseError::Other(ParseFault::UnsupportedOption));
                }
            },
            Err(ParseError::EndOfStream) => {},
            Err(e) => {
                return Err(e);
            },
        }
        proof {
            assert(m0 == set_opts_model(parse.remaining(), 1, expire, nx, xx));
        }

        // Second option token.
        let ghost rem2 = parse.remaining();
        match parse.next_bytes() {
            Ok(s) => {
                let u = to_uppercase(&s);
                let v_ex: Vec<u8> = vec![69u8, 88u8];
                let v_px: Vec<u8> = vec![80u8, 88u8];
                let v_nx: Vec<u8> = vec![78u8, 88u8];
                let v_xx: Vec<u8> = vec![88u8, 88u8];
                proof {
                    assert(v_ex@ =~= kw_ex());
                    assert(v_px@ =~= kw_px());
                    assert(v_nx@ =~= kw_nx());
                    assert(v_xx@ =~= kw_xx());
                }
                if crate::bytes_eq(&u, &v_ex) {
                    let secs = match parse.next_int() {
                        Ok(v) => v,
                        Err(e) => {
                            return Err(e);
                        },
                    };
                    proof {
                        assert(rem2.drop_first()[0] == rem2[1]);
                        assert(rem2.drop_first().drop_first() =~= rem2.skip(2));
                    }
                    if secs > u64::MAX / 1000 {
                        return Err(ParseError::Other(ParseFault::InvalidNumber));
                    }
                    proof {
                        assert(1000 * (u64::MAX as int / 1000) + u64::MAX as int % 1000
                            == u64::MAX as int);
                    }
                    expire = Some(secs * 1000);
                } else if crate::bytes_eq(&u, &v_px) {
                    let ms = match parse.next_int() {
                        Ok(v) => v,
                        Err(e) => {
                            return Err(e);
                        },
                    };
                    proof {
                        assert(rem2.drop_first()[0] == rem2[1]);
                        assert(rem2.drop_first().drop_first() =~= rem2.skip(2));
                    }
                    expire = Some(ms);
                } else if crate::bytes_eq(&u, &v_nx) {
                    nx = true;
                } else if crate::bytes_eq(&u, &v_xx) {
                    xx = true;
                } else {
                    return Err(ParseError::Other(ParseFault::UnsupportedOption));
                }
            },
            Err(ParseError::EndOfStream) => {},
            Err(e) => {
                return Err(e);
            },
        }
        proof {
            assert(m0 == set_opts_model(parse.remaining(), 0, expire, nx, xx));
        }

        if nx && xx {
            return Err(ParseError::Other(ParseFault::ConflictingOptions));
        }
        Ok(SetCmd { key, value, expire, nx, xx })
    }

    /// Respond to this command against the store. An unmet `NX` or `XX`
    /// condition answers `Null` and writes nothing; otherwise the write is
    /// applied and acknowledged with `OK`. The boolean asks the caller to
    /// wake the reaper.
    pub fn apply(self, db: &mut State, now: u64) -> (r: (Frame, bool))
        requires
            old(db).wf(),
            old(db).spec_next_id() < u64::MAX,
            self.spec_expire() matches Some(d) ==> now + d <= u64::MAX,
        ensures
            final(db).wf(),
            ({
                let unmet = (self.spec_nx() && old(db).spec_get(self.spec_key()) is Some) || (
                self.spec_xx() && old(db).spec_get(self.spec_key()) is None);
                if unmet {
                    r.0@ == SpecFrame::Null && *final(db) == *old(db) && !r.1
                } else {
                    &&& r.0@ == SpecFrame::Simple(ok_bytes())
                    &&& final(db).spec_next_id() == old(db).spec_next_id() + 1
                    &&& final(db).spec_shutdown() == old(db).spec_shutdown()
                    &&& match final(db).spec_get(self.spec_key()) {
                        Some(e) => e.id == old(db).spec_next_id() && e.data@ == self.spec_value()
                            && e.expires_at == spec_expiry(self.spec_expire(), now),
                        None => false,
                    }
                    &&& forall|k: Seq<u8>|
                        k != self.spec_key() ==> #[trigger] final(db).spec_get(k) == old(
                            db,
                        ).spec_get(k)
                    &&& r.1 == should_notify(
                        old(db).spec_rows(),
                        spec_expiry(self.spec_expire(), now),
                    )
                }
            }),
    {
        let present = db.get(&self.key).is_some();
        if (self.nx && present) || (self.xx && !present) {
            (Frame::Null, false)
        } else {
            let notify = db.set(self.key, self.value, self.expire, now);
            let ok: Vec<u8> = vec![79u8, 75u8];
            proof {
                assert(ok@ =~= ok_bytes());
            }
            (Frame::Simple(ok), notify)
        }
    }
}

} // verus!
