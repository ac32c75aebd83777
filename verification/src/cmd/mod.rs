//! Redis commands.
//!
//! A received array frame is read into a tagged `Command`. The first token
//! is the command name, matched case-insensitively; the remaining tokens
//! are read by the command's own parser, and nothing may trail a known
//! command. Unknown names become `Command::Unknown` with the rest ignored.

pub mod get;
pub mod set;
pub mod publish;
pub mod subscribe;
pub mod unknown;

pub use get::Get;
pub use set::SetCmd;
pub use publish::Publish;
pub use subscribe::Subscribe;
pub use subscribe::Unsubscribe;
pub use unknown::Unknown;

use vstd::prelude::*;
use crate::frame::{Frame, SpecFrame};
use crate::parse::{Parse, ParseError, token_bytes};
use get::get_model;
use set::set_model;
use publish::publish_model;
use subscribe::channels_model;

verus! {

/// ASCII lower-casing of one byte.
pub open spec fn lower_byte(b: u8) -> u8 {
    if 65 <= b && b <= 90 {
        (b + 32) as u8
    } else {
        b
    }
}

/// ASCII lower-casing of a byte string.
pub open spec fn to_lower(s: Seq<u8>) -> Seq<u8> {
    Seq::new(s.len(), |i: int| lower_byte(s[i]))
}

/// ASCII upper-casing of one byte.
pub open spec fn upper_byte(b: u8) -> u8 {
    if 97 <= b && b <= 122 {
        (b - 32) as u8
    } else {
        b
    }
}

/// ASCII upper-casing of a byte string.
pub open spec fn to_upper(s: Seq<u8>) -> Seq<u8> {
    Seq::new(s.len(), |i: int| upper_byte(s[i]))
}

pub fn to_lowercase(v: &Vec<u8>) -> (r: Vec<u8>)
    ensures
        r@ == to_lower(v@),
{
    let mut out: Vec<u8> = Vec::new();
    let mut i: usize = 0;
    while i < v.len()
        invariant
            i <= v@.len(),
            out@.len() == i,
            forall|j: int| 0 <= j < i ==> out@[j] == lower_byte(#[trigger] v@[j]),
        decreases v@.len() - i,
    {
        let b = v[i];
        if 65 <= b && b <= 90 {
            out.push(b + 32);
        } else {
            out.push(b);
        }
        i = i + 1;
    }
    proof {
        assert(out@ =~= to_lower(v@));
    }
    out
}

pub fn to_uppercase(v: &Vec<u8>) -> (r: Vec<u8>)
    ensures
        r@ == to_upper(v@),
{
    let mut out: Vec<u8> = Vec::new();
    let mut i: usize = 0;
    while i < v.len()
        invariant
            i <= v@.len(),
            out@.len() == i,
            forall|j: int| 0 <= j < i ==> out@[j] == upper_byte(#[trigger] v@[j]),
        decreases v@.len() - i,
    {
        let b = v[i];
        if 97 <= b && b <= 122 {
            out.push(b - 32);
        } else {
            out.push(b);
        }
        i = i + 1;
    }
    proof {
        assert(out@ =~= to_upper(v@));
    }
    out
}

/// `get`
pub open spec fn kw_get() -> Seq<u8> {
    seq![103u8, 101u8, 116u8]
}

/// `set`
pub open spec fn kw_set() -> Seq<u8> {
    seq![115u8, 101u8, 116u8]
}

/// `publish`
pub open spec fn kw_publish() -> Seq<u8> {
    seq![112u8, 117u8, 98u8, 108u8, 105u8, 115u8, 104u8]
}

/// `subscribe`
pub open spec fn kw_subscribe() -> Seq<u8> {
    seq![115u8, 117u8, 98u8, 115u8, 99u8, 114u8, 105u8, 98u8, 101u8]
}

/// `unsubscribe`
pub open spec fn kw_unsubscribe() -> Seq<u8> {
    seq![117u8, 110u8, 115u8, 117u8, 98u8, 115u8, 99u8, 114u8, 105u8, 98u8, 101u8]
}

/// The lower-cased name is one the dispatcher knows.
pub open spec fn known_name(name: Seq<u8>) -> bool {
    ||| name == kw_get()
    ||| name == kw_set()
    ||| name == kw_publish()
    ||| name == kw_subscribe()
    ||| name == kw_unsubscribe()
}

/// Supported Redis commands.
#[derive(Debug)]
pub enum Command {
    Get(Get),
    Publish(Publish),
    SetCmd(SetCmd),
    Subscribe(Subscribe),
    Unsubscribe(Unsubscribe),
    Unknown(Unknown),
}

impl Command {
    /// Parse a command from a received frame.
    ///
    /// The frame must be an array whose first element names the command,
    /// matched after ASCII lower-casing. A known command must consume every
    /// token; an unknown name is accepted as `Unknown` with the remaining
    /// tokens ignored.
    pub fn from_frame(frame: Frame) -> (r: Result<Command, ParseError>)
        ensures
            match r {
                Ok(cmd) => {
                    &&& frame@ matches SpecFrame::Array(elems)
                    &&& elems.len() >= 1
                    &&& token_bytes(elems[0]) matches Some(nm0)
                    &&& ({
                        let name = to_lower(nm0);
                        let args = elems.drop_first();
                        match cmd {
                        Command::Get(g) => name == kw_get() && get_model(args) == Some(g.spec_key()),
                        Command::SetCmd(s) => name == kw_set() && s.models(set_model(args)),
                        Command::Publish(p) => name == kw_publish() && publish_model(args) == Some(
                            (p.spec_channel(), p.spec_message()),
                        ),
                        Command::Subscribe(su) => name == kw_subscribe() && (channels_model(args)
                            matches Some(chs) && chs.len() >= 1 && su.spec_channels() == chs),
                        Command::Unsubscribe(u) => name == kw_unsubscribe() && (channels_model(args)
                            matches Some(chs) && u.spec_channels() == chs),
                        Command::Unknown(un) => !known_name(name) && un.spec_name() == name,
                        }
                    })
                },
                Err(_) => !(frame@ is Array) || {
                    let elems = frame@->Array_0;
                    let args = elems.drop_first();
                    elems.len() == 0 || token_bytes(elems[0]) is None || {
                        let name = to_lower(token_bytes(elems[0])->Some_0);
                        ||| (name == kw_get() && get_model(args) is None)
                        ||| (name == kw_set() && set_model(args) is None)
                        ||| (name == kw_publish() && publish_model(args) is None)
                        ||| (name == kw_subscribe() && (channels_model(args) is None || (
                        channels_model(args) matches Some(chs) && chs.len() == 0)))
                        ||| (name == kw_unsubscribe() && channels_model(args) is None)
                    }
                },
            },
    {
        let mut parse = match Parse::new(frame) {
            Ok(p) => p,
            Err(e) => {
                return Err(e);
            },
        };
        let name_raw = match parse.next_bytes() {
            Ok(b) => b,
            Err(e) => {
                return Err(e);
            },
        };
        let command_name = to_lowercase(&name_raw);
        let v_get: Vec<u8> = vec![103u8, 101u8, 116u8];
        let v_set: Vec<u8> = vec![115u8, 101u8, 116u8];
        let v_publish: Vec<u8> = vec![112u8, 117u8, 98u8, 108u8, 105u8, 115u8, 104u8];
        let v_subscribe: Vec<u8> = vec![115u8, 117u8, 98u8, 115u8, 99u8, 114u8, 105u8, 98u8, 101u8];
        let v_unsubscribe: Vec<u8> = vec![
            117u8,
            110u8,
            115u8,
            117u8,
            98u8,
            115u8,
            99u8,
            114u8,
            105u8,
            98u8,
            101u8,
        ];
        proof {
            assert(v_get@ =~= kw_get());
            assert(v_set@ =~= kw_set());
            assert(v_publish@ =~= kw_publish());
            assert(v_subscribe@ =~= kw_subscribe());
            assert(v_unsubscribe@ =~= kw_unsubscribe());
        }
        let cmd = if crate::bytes_eq(&command_name, &v_get) {
            match Get::parse_frames(&mut parse) {
                Ok(g) => Command::Get(g),
                Err(e) => {
                    return Err(e);
                },
            }
        } else if crate::bytes_eq(&command_name, &v_set) {
            match SetCmd::parse_frames(&mut parse) {
                Ok(s) => Command::SetCmd(s),
                Err(e) => {
                    return Err(e);
                },
            }
        } else if crate::bytes_eq(&command_name, &v_publish) {
            match Publish::parse_frames(&mut parse) {
                Ok(p) => Command::Publish(p),
                Err(e) => {
                    return Err(e);
                },
            }
        } else if crate::bytes_eq(&command_name, &v_subscribe) {
            match Subscribe::parse_frames(&mut parse) {
                Ok(s) => Command::Subscribe(s),
                Err(e) => {
                    return Err(e);
                },
            }
        } else if crate::bytes_eq(&command_name, &v_unsubscribe) {
            match Unsubscribe::parse_frames(&mut parse) {
                Ok(u) => Command::Unsubscribe(u),
                Err(e) => {
                    return Err(e);
                },
            }
        } else {
            return Ok(Command::Unknown(Unknown::new(command_name)));
        };
        match parse.finish() {
            Ok(()) => Ok(cmd),
            Err(e) => Err(e),
        }
    }

    /// The command's lower-case name, as bytes.
    pub fn get_name(&self) -> (r: Vec<u8>)
        ensures
            match self {
                Command::Get(_) => r@ == kw_get(),
                Command::SetCmd(_) => r@ == kw_set(),
                Command::Publish(_) => r@ == kw_publish(),
                Command::Subscribe(_) => r@ == kw_subscribe(),
                Command::Unsubscribe(_) => r@ == kw_unsubscribe(),
                Command::Unknown(un) => r@ == un.spec_name(),
            },
    {
        match self {
            Command::Get(_) => {
                let v: Vec<u8> = vec![103u8, 101u8, 116u8];
                proof {
                    assert(v@ =~= kw_get());
                }
                v
            },
            Command::SetCmd(_) => {
                let v: Vec<u8> = vec![115u8, 101u8, 116u8];
                proof {
                    assert(v@ =~= kw_set());
                }
                v
            },
            Command::Publish(_) => {
                let v: Vec<u8> = vec![112u8, 117u8, 98u8, 108u8, 105u8, 115u8, 104u8];
                proof {
                    assert(v@ =~= kw_publish());
                }
                v
            },
            Command::Subscribe(_) => {
                let v: Vec<u8> = vec![
                    115u8,
                    117u8,
                    98u8,
                    115u8,
                    99u8,
                    114u8,
                    105u8,
                    98u8,
                    101u8,
                ];
                proof {
                    assert(v@ =~= kw_subscribe());
                }
                v
            },
            Command::Unsubscribe(_) => {
                let v: Vec<u8> = vec![
                    117u8,
                    110u8,
                    115u8,
                    117u8,
                    98u8,
                    115u8,
                    99u8,
                    114u8,
                    105u8,
                    98u8,
                    101u8,
                ];
                proof {
                    assert(v@ =~= kw_unsubscribe());
                }
                v
            },
            Command::Unknown(un) => un.name_bytes(),
        }
    }
}

} // verus!
