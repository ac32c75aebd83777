//! The `GET` command.

use vstd::prelude::*;
use crate::frame::{Frame, SpecFrame};
use crate::parse::{Parse, ParseError, token_bytes};
use crate::db::State;

verus! {

/// Arguments of `GET`: exactly one byte-string key.
pub open spec fn get_model(args: Seq<SpecFrame>) -> Option<Seq<u8>> {
    if args.len() == 1 && token_bytes(args[0]) is Some {
        Some(token_bytes(args[0])->Some_0)
    } else {
        None
    }
}

/// Get the value of a key. The key may not exist; that answer is `Null`.
#[derive(Debug)]
pub struct Get {
    key: Vec<u8>,
}

impl Get {
    pub closed spec fn spec_key(&self) -> Seq<u8> {
        self.key@
    }

    /// Create a new `Get` command that fetches `key`.
    pub fn new(key: Vec<u8>) -> (r: Get)
        ensures
            r.spec_key() == key@,
    {
        Get { key }
    }

    /// The key to fetch.
    pub fn key(&self) -> (r: &Vec<u8>)
        ensures
            r@ == self.spec_key(),
    {
        &self.key
    }

    /// Read the argument tokens of a `GET`.
    pub fn parse_frames(parse: &mut Parse) -> (r: Result<Get, ParseError>)
        ensures
            match r {
                Ok(g) => old(parse).remaining().len() > 0 && token_bytes(
                    old(parse).remaining()[0],
                ) == Some(g.spec_key()) && final(parse).remaining() == old(
                    parse,
                ).remaining().drop_first(),
                Err(_) => old(parse).remaining().len() == 0 || token_bytes(
                    old(parse).remaining()[0],
                ) is None,
            },
    {
        match parse.next_bytes() {
            Ok(key) => Ok(Get { key }),
            Err(e) => Err(e),
        }
    }

    /// The response to this command: the stored bytes, or `Null`.
    pub fn apply(self, db: &State) -> (resp: Frame)
        ensures
            match db.spec_get(self.spec_key()) {
                Some(e) => resp@ == SpecFrame::Bulk(e.data@),
                None => resp@ == SpecFrame::Null,
            },
    {
        match db.get(&self.key) {
            Some(v) => Frame::Bulk(v),
            None => Frame::Null,
        }
    }

    /// The wire form of this command: `["get", key]`.
    pub fn into_frame(self) -> (r: Frame)
        ensures
            r@ == SpecFrame::Array(
                seq![
                    SpecFrame::Bulk(crate::cmd::kw_get()),
                    SpecFrame::Bulk(self.spec_key()),
                ],
            ),
    {
        let mut frame = Frame::array();
        let name: Vec<u8> = vec![103u8, 101u8, 116u8];
        proof {
            assert(name@ =~= crate::cmd::kw_get());
        }
        frame.push_bulk(name);
        frame.push_bulk(self.key);
        proof {
            assert(Seq::<SpecFrame>::empty().push(SpecFrame::Bulk(crate::cmd::kw_get())).push(
                SpecFrame::Bulk(self.spec_key()),
            ) =~= seq![
                SpecFrame::Bulk(crate::cmd::kw_get()),
                SpecFrame::Bulk(self.spec_key()),
            ]);
        }
        frame
    }
}

} // verus!
